//! The document writer: indirect-object lifecycle, offset bookkeeping,
//! nesting state, and the scoped value/array/dictionary writers.
//!
//! Every operation appends bytes to the writer's buffer and never rewrites
//! earlier bytes; each contract states exactly which bytes are appended.

use vstd::prelude::*;

use crate::num::{dec_rep, int_rep, push_i32, push_u64};

verus! {

/// The mathematical state of a [`PdfWriter`]: the bytes written so far,
/// the offset table in recording order, the nesting depth, and the number
/// of spaces per indentation level.
pub ghost struct WriterModel {
    pub bytes: Seq<u8>,
    pub recorded: Seq<(int, int)>,
    pub depth: nat,
    pub indent: nat,
}

/// A run of `k` ASCII space bytes.
pub open spec fn spaces(k: int) -> Seq<u8> {
    Seq::new(if k < 0 { 0nat } else { k as nat }, |i: int| 0x20u8)
}

/// The header line: `%PDF-<major>.<minor>` followed by a blank line.
pub open spec fn header_bytes(major: nat, minor: nat) -> Seq<u8> {
    seq![0x25u8, 0x50, 0x44, 0x46, 0x2d] + dec_rep(major) + seq![0x2eu8] + dec_rep(minor)
        + seq![0x0au8, 0x0au8]
}

/// The line that opens an indirect object: `<id> 0 obj` and a line break.
pub open spec fn obj_open_bytes(id: int) -> Seq<u8> {
    dec_rep(if id < 0 { 0nat } else { id as nat }) + seq![0x20u8, 0x30, 0x20, 0x6f, 0x62, 0x6a, 0x0a]
}

/// The bytes that close an indirect object: `endobj`, a line break, and a
/// blank line.
pub open spec fn obj_close_bytes() -> Seq<u8> {
    seq![0x65u8, 0x6e, 0x64, 0x6f, 0x62, 0x6a, 0x0a, 0x0a]
}

/// The closing bytes owed by a slot: `endobj` when the slot is the direct
/// content of an indirect object, nothing otherwise.
pub open spec fn close_bytes_if(indirect: bool) -> Seq<u8> {
    if indirect {
        obj_close_bytes()
    } else {
        Seq::<u8>::empty()
    }
}

/// A boolean value: `true` or `false`.
pub open spec fn bool_bytes(value: bool) -> Seq<u8> {
    if value {
        seq![0x74u8, 0x72, 0x75, 0x65]
    } else {
        seq![0x66u8, 0x61, 0x6c, 0x73, 0x65]
    }
}

/// A name token: a solidus followed by the name's bytes.
pub open spec fn name_bytes(name: Seq<u8>) -> Seq<u8> {
    seq![0x2fu8] + name
}

/// A literal string: the bytes between parentheses.
pub open spec fn string_bytes(s: Seq<u8>) -> Seq<u8> {
    seq![0x28u8] + s + seq![0x29u8]
}

/// A reference to an indirect object: `<id> 0 R`.
pub open spec fn ref_bytes(id: int) -> Seq<u8> {
    dec_rep(if id < 0 { 0nat } else { id as nat }) + seq![0x20u8, 0x30, 0x20, 0x52]
}

/// One recorded offset is consistent with the buffer: the identifier is
/// positive and the buffer carries the object's opening line at the
/// recorded position.
pub open spec fn entry_ok(bytes: Seq<u8>, e: (int, int)) -> bool {
    &&& 1 <= e.0
    &&& 0 <= e.1
    &&& e.1 + obj_open_bytes(e.0).len() <= bytes.len()
    &&& bytes.subrange(e.1, e.1 + obj_open_bytes(e.0).len()) == obj_open_bytes(e.0)
}

/// Every recorded offset is consistent with the buffer.
pub open spec fn offsets_ok(bytes: Seq<u8>, rec: Seq<(int, int)>) -> bool {
    forall|k: int| 0 <= k < rec.len() ==> entry_ok(bytes, #[trigger] rec[k])
}

/// Appending bytes never invalidates recorded offsets: the buffer is
/// append-only, so an offset that points at an object's opening line keeps
/// pointing at it.
pub proof fn lemma_offsets_ok_append(bytes: Seq<u8>, rec: Seq<(int, int)>, tail: Seq<u8>)
    requires
        offsets_ok(bytes, rec),
    ensures
        offsets_ok(bytes + tail, rec),
{
    assert forall|k: int| 0 <= k < rec.len() implies entry_ok(bytes + tail, #[trigger] rec[k]) by {
        assert(entry_ok(bytes, rec[k]));
        let e = rec[k];
        assert((bytes + tail).subrange(e.1, e.1 + obj_open_bytes(e.0).len()) =~= bytes.subrange(
            e.1,
            e.1 + obj_open_bytes(e.0).len(),
        ));
    }
}

/// Law: every recorded offset round-trips. In any buffer whose offsets
/// are consistent — which every writer maintains, and appending the table
/// and trailer preserves — scanning the buffer at a recorded offset yields
/// exactly the opening line `<id> 0 obj` of that identifier.
pub proof fn lemma_offset_round_trip(bytes: Seq<u8>, rec: Seq<(int, int)>, k: int)
    requires
        offsets_ok(bytes, rec),
        0 <= k < rec.len(),
    ensures
        1 <= rec[k].0,
        0 <= rec[k].1,
        rec[k].1 + obj_open_bytes(rec[k].0).len() <= bytes.len(),
        bytes.subrange(rec[k].1, rec[k].1 + obj_open_bytes(rec[k].0).len()) == obj_open_bytes(
            rec[k].0,
        ),
{
    assert(entry_ok(bytes, rec[k]));
}

/// Law: the full round trip through a finished document. Take any writer
/// state before [`PdfWriter::end`] — its buffer and its recorded offsets,
/// with distinct identifiers and offsets that fit the ten-digit field —
/// and the buffer that `end` promises to leave behind. Then for every
/// recorded pair, the cross-reference entry of its identifier, found a
/// fixed `20 * id` bytes past the table's head, decodes to the recorded
/// byte offset, and scanning the finished buffer at that offset yields
/// exactly the line `<id> 0 obj`.
pub proof fn lemma_finished_round_trip(
    bytes: Seq<u8>,
    rec: Seq<(int, int)>,
    root: int,
    indent: nat,
    id: int,
    off: int,
)
    requires
        offsets_ok(bytes, rec),
        crate::xref::ids_distinct(rec),
        forall|k: int| 0 <= k < rec.len() ==> (#[trigger] rec[k]).1 < crate::num::pow10(10),
        rec.contains((id, off)),
    ensures
        ({
            let sorted = crate::xref::sort_pairs(rec);
            let out = bytes + crate::xref::xref_bytes(sorted) + trailer_bytes(
                root,
                crate::xref::xref_size(sorted),
                bytes.len() as int,
                indent,
            );
            let entry = bytes.len() + crate::xref::xref_head(sorted).len() + 20 * id;
            &&& 1 <= id < crate::xref::xref_size(sorted)
            &&& entry + 20 <= out.len()
            &&& out.subrange(entry, entry + 20) == crate::xref::used_entry_bytes(off)
            &&& crate::num::dec_val(out.subrange(entry, entry + 10)) == off
            &&& out.subrange(off, off + obj_open_bytes(id).len()) == obj_open_bytes(id)
        }),
{
    let sorted = crate::xref::sort_pairs(rec);
    let table = crate::xref::xref_bytes(sorted);
    let tr = trailer_bytes(root, crate::xref::xref_size(sorted), bytes.len() as int, indent);
    let out = bytes + table + tr;
    let k = choose|k: int| 0 <= k < rec.len() && rec[k] == (id, off);
    assert(entry_ok(bytes, rec[k]));
    assert(crate::xref::recorded_ok(rec)) by {
        assert forall|m: int|
            0 <= m < rec.len() implies 1 <= (#[trigger] rec[m]).0 && 0 <= rec[m].1
            < crate::num::pow10(10) by {
            assert(entry_ok(bytes, rec[m]));
        }
    }
    crate::xref::lemma_xref_lookup(rec, id, off);
    crate::xref::lemma_xref_table_len(rec);
    let entry = bytes.len() + crate::xref::xref_head(sorted).len() + 20 * id;
    let pos = crate::xref::xref_head(sorted).len() + 20 * id;
    assert(out.subrange(entry, entry + 20) =~= table.subrange(pos, pos + 20));
    assert(out.subrange(entry, entry + 10) =~= table.subrange(pos, pos + 10));
    lemma_offsets_ok_append(bytes, rec, table + tr);
    assert(bytes + (table + tr) =~= out);
    assert(entry_ok(out, rec[k]));
}

/// The view of one stored offset pair.
pub open spec fn pair_view(p: (i32, usize)) -> (int, int) {
    (p.0 as int, p.1 as int)
}

/// The view of the stored offset table.
pub open spec fn pairs_view(s: Seq<(i32, usize)>) -> Seq<(int, int)> {
    s.map_values(|p: (i32, usize)| pair_view(p))
}

/// An indirect reference: a strictly positive identifier naming an
/// indirect object. The zero value is reserved by the format for the
/// free-list sentinel and cannot be constructed.
#[derive(Debug, Clone, Copy, PartialEq, Eq, Hash)]
pub struct Ref {
    num: i32,
}

impl View for Ref {
    type V = int;

    closed spec fn view(&self) -> int {
        self.num as int
    }
}

impl Ref {
    #[verifier::type_invariant]
    spec fn positive(self) -> bool {
        1 <= self.num
    }

    /// Create a new indirect reference.
    ///
    /// The provided value must be in the range `1..=i32::MAX`.
    pub fn new(id: i32) -> (r: Ref)
        requires
            1 <= id,
        ensures
            r@ == id,
    {
        Ref { num: id }
    }

    /// Return the underlying number as a primitive type.
    pub fn get(self) -> (r: i32)
        ensures
            r == self@,
            1 <= r,
    {
        proof {
            use_type_invariant(self);
        }
        self.num
    }
}

/// The root writer: owns the output buffer, the offset table, and the
/// nesting state.
pub struct PdfWriter {
    buf: Vec<u8>,
    offs: Vec<(i32, usize)>,
    depth: usize,
    indent: usize,
}

impl View for PdfWriter {
    type V = WriterModel;

    closed spec fn view(&self) -> WriterModel {
        WriterModel {
            bytes: self.buf@,
            recorded: pairs_view(self.offs@),
            depth: self.depth as nat,
            indent: self.indent as nat,
        }
    }
}

impl PdfWriter {
    /// The writer's recorded offsets are consistent with its buffer.
    pub open spec fn wf(&self) -> bool {
        offsets_ok(self@.bytes, self@.recorded)
    }

    /// Create a new writer with an empty buffer, no recorded offsets,
    /// nesting depth zero, and indentation disabled.
    pub fn new() -> (w: PdfWriter)
        ensures
            w@ == (WriterModel {
                bytes: Seq::<u8>::empty(),
                recorded: Seq::<(int, int)>::empty(),
                depth: 0,
                indent: 0,
            }),
            w.wf(),
    {
        let w = PdfWriter { buf: Vec::new(), offs: Vec::new(), depth: 0, indent: 0 };
        proof {
            assert(pairs_view(w.offs@) =~= Seq::<(int, int)>::empty());
        }
        w
    }

    /// Set the indent level per layer of nested objects.
    ///
    /// _Default value_: 0.
    pub fn set_indent(&mut self, indent: usize)
        ensures
            final(self)@ == (WriterModel { indent: indent as nat, ..old(self)@ }),
            old(self).wf() ==> final(self).wf(),
    {
        self.indent = indent;
    }

    /// Write the header, containing the version: `%PDF-<major>.<minor>`
    /// followed by a blank line.
    pub fn start(&mut self, major: u32, minor: u32)
        requires
            old(self).wf(),
        ensures
            final(self)@ == (WriterModel {
                bytes: old(self)@.bytes + header_bytes(major as nat, minor as nat),
                ..old(self)@
            }),
            final(self).wf(),
    {
        self.buf.push(0x25);
        self.buf.push(0x50);
        self.buf.push(0x44);
        self.buf.push(0x46);
        self.buf.push(0x2d);
        push_u64(&mut self.buf, major as u64);
        self.buf.push(0x2e);
        push_u64(&mut self.buf, minor as u64);
        self.buf.push(0x0a);
        self.buf.push(0x0a);
        proof {
            assert(self.buf@ =~= old(self).buf@ + header_bytes(major as nat, minor as nat));
            lemma_offsets_ok_append(
                old(self)@.bytes,
                old(self)@.recorded,
                header_bytes(major as nat, minor as nat),
            );
        }
    }

    /// Start writing an arbitrary indirect object: record the offset and
    /// emit the object's opening line. Only one indirect object may be in
    /// progress at a time, so the nesting depth must be zero.
    pub fn obj(&mut self, id: Ref) -> (r: Object)
        requires
            old(self).wf(),
            old(self)@.depth == 0,
        ensures
            final(self)@ == (WriterModel {
                bytes: old(self)@.bytes + obj_open_bytes(id@),
                recorded: old(self)@.recorded.push((id@, old(self)@.bytes.len() as int)),
                depth: 1,
                ..old(self)@
            }),
            final(self).wf(),
            r.is_indirect(),
    {
        self.start_indirect(id);
        Object::new(true)
    }

    /// Return the underlying buffer.
    pub fn into_buf(self) -> (r: Vec<u8>)
        ensures
            r@ == self@.bytes,
    {
        self.buf
    }

    fn start_indirect(&mut self, id: Ref)
        requires
            old(self).wf(),
            old(self)@.depth == 0,
        ensures
            final(self)@ == (WriterModel {
                bytes: old(self)@.bytes + obj_open_bytes(id@),
                recorded: old(self)@.recorded.push((id@, old(self)@.bytes.len() as int)),
                depth: 1,
                ..old(self)@
            }),
            final(self).wf(),
    {
        proof {
            use_type_invariant(id);
        }
        self.depth = self.depth + 1;
        let n = id.get();
        self.offs.push((n, self.buf.len()));
        push_u64(&mut self.buf, n as u64);
        self.buf.push(0x20);
        self.buf.push(0x30);
        self.buf.push(0x20);
        self.buf.push(0x6f);
        self.buf.push(0x62);
        self.buf.push(0x6a);
        self.buf.push(0x0a);
        proof {
            assert(self.buf@ =~= old(self).buf@ + obj_open_bytes(id@));
            assert(pairs_view(self.offs@) =~= pairs_view(old(self).offs@).push(
                (id@, old(self)@.bytes.len() as int),
            ));
            lemma_offsets_ok_append(old(self)@.bytes, old(self)@.recorded, obj_open_bytes(id@));
            let e = (id@, old(self)@.bytes.len() as int);
            assert(self.buf@.subrange(e.1, e.1 + obj_open_bytes(e.0).len()) =~= obj_open_bytes(
                e.0,
            ));
            assert(entry_ok(self.buf@, e));
        }
    }

    fn end_indirect(&mut self)
        requires
            old(self).wf(),
            old(self)@.depth >= 1,
        ensures
            final(self)@ == (WriterModel {
                bytes: old(self)@.bytes + obj_close_bytes(),
                depth: (old(self)@.depth - 1) as nat,
                ..old(self)@
            }),
            final(self).wf(),
    {
        self.depth = self.depth - 1;
        self.buf.push(0x65);
        self.buf.push(0x6e);
        self.buf.push(0x64);
        self.buf.push(0x6f);
        self.buf.push(0x62);
        self.buf.push(0x6a);
        self.buf.push(0x0a);
        self.buf.push(0x0a);
        proof {
            assert(self.buf@ =~= old(self).buf@ + obj_close_bytes());
            lemma_offsets_ok_append(old(self)@.bytes, old(self)@.recorded, obj_close_bytes());
        }
    }

    fn write_indent(&mut self)
        requires
            old(self).wf(),
        ensures
            final(self)@ == (WriterModel {
                bytes: old(self)@.bytes + spaces(old(self)@.indent * old(self)@.depth as int),
                ..old(self)@
            }),
            final(self).wf(),
    {
        let mut l: usize = 0;
        while l < self.depth
            invariant
                l <= self.depth,
                self.buf@ == old(self).buf@ + spaces(self.indent * l),
                self.offs@ == old(self).offs@,
                self.depth == old(self).depth,
                self.indent == old(self).indent,
            decreases self.depth - l,
        {
            let mut j: usize = 0;
            while j < self.indent
                invariant
                    j <= self.indent,
                    l < self.depth,
                    self.buf@ == old(self).buf@ + spaces(self.indent * l + j),
                    self.offs@ == old(self).offs@,
                    self.depth == old(self).depth,
                    self.indent == old(self).indent,
                decreases self.indent - j,
            {
                self.buf.push(0x20);
                proof {
                    assert(self.buf@ =~= old(self).buf@ + spaces(self.indent * l + j + 1));
                }
                j = j + 1;
            }
            proof {
                assert(self.indent * (l + 1) == self.indent * l + self.indent) by (nonlinear_arith);
            }
            l = l + 1;
        }
        proof {
            assert(self.buf@ =~= old(self).buf@ + spaces(old(self)@.indent * old(self)@.depth as int));
            lemma_offsets_ok_append(
                old(self)@.bytes,
                old(self)@.recorded,
                spaces(old(self)@.indent * old(self)@.depth as int),
            );
        }
    }
}

/// Writer for an arbitrary value in one slot: an array item, a dictionary
/// value, or the direct content of an indirect object. Exactly one of its
/// operations may be invoked; each consumes the writer. A slot writer that
/// is dropped without being filled produces no output.
pub struct Object {
    indirect: bool,
}

impl Object {
    /// Whether this slot is the direct content of an indirect object, so
    /// that terminating the slot also closes the indirect object.
    pub closed spec fn is_indirect(&self) -> bool {
        self.indirect
    }

    fn new(indirect: bool) -> (r: Object)
        ensures
            r.is_indirect() == indirect,
    {
        Object { indirect }
    }

    /// Write a boolean.
    pub fn bool(self, w: &mut PdfWriter, value: bool)
        requires
            old(w).wf(),
            self.is_indirect() ==> old(w)@.depth >= 1,
        ensures
            final(w)@ == (WriterModel {
                bytes: old(w)@.bytes + bool_bytes(value) + close_bytes_if(self.is_indirect()),
                depth: (old(w)@.depth - (if self.is_indirect() { 1int } else { 0int })) as nat,
                ..old(w)@
            }),
            final(w).wf(),
    {
        if value {
            w.buf.push(0x74);
            w.buf.push(0x72);
            w.buf.push(0x75);
            w.buf.push(0x65);
        } else {
            w.buf.push(0x66);
            w.buf.push(0x61);
            w.buf.push(0x6c);
            w.buf.push(0x73);
            w.buf.push(0x65);
        }
        proof {
            assert(w.buf@ =~= old(w).buf@ + bool_bytes(value));
            lemma_offsets_ok_append(old(w)@.bytes, old(w)@.recorded, bool_bytes(value));
        }
        self.close_slot(w);
    }

    /// Write an integer number.
    pub fn integer(self, w: &mut PdfWriter, value: i32)
        requires
            old(w).wf(),
            self.is_indirect() ==> old(w)@.depth >= 1,
        ensures
            final(w)@ == (WriterModel {
                bytes: old(w)@.bytes + int_rep(value as int) + close_bytes_if(self.is_indirect()),
                depth: (old(w)@.depth - (if self.is_indirect() { 1int } else { 0int })) as nat,
                ..old(w)@
            }),
            final(w).wf(),
    {
        push_i32(&mut w.buf, value);
        proof {
            lemma_offsets_ok_append(old(w)@.bytes, old(w)@.recorded, int_rep(value as int));
        }
        self.close_slot(w);
    }

    /// Write a name token: a solidus followed by the given bytes.
    pub fn name(self, w: &mut PdfWriter, name: &[u8])
        requires
            old(w).wf(),
            self.is_indirect() ==> old(w)@.depth >= 1,
        ensures
            final(w)@ == (WriterModel {
                bytes: old(w)@.bytes + name_bytes(name@) + close_bytes_if(self.is_indirect()),
                depth: (old(w)@.depth - (if self.is_indirect() { 1int } else { 0int })) as nat,
                ..old(w)@
            }),
            final(w).wf(),
    {
        w.buf.push(0x2f);
        push_slice(&mut w.buf, name);
        proof {
            assert(w.buf@ =~= old(w).buf@ + name_bytes(name@));
            lemma_offsets_ok_append(old(w)@.bytes, old(w)@.recorded, name_bytes(name@));
        }
        self.close_slot(w);
    }

    /// Write a literal string: the given bytes between parentheses. The
    /// caller is responsible for escaping bytes that the format does not
    /// allow verbatim.
    pub fn string(self, w: &mut PdfWriter, s: &[u8])
        requires
            old(w).wf(),
            self.is_indirect() ==> old(w)@.depth >= 1,
        ensures
            final(w)@ == (WriterModel {
                bytes: old(w)@.bytes + string_bytes(s@) + close_bytes_if(self.is_indirect()),
                depth: (old(w)@.depth - (if self.is_indirect() { 1int } else { 0int })) as nat,
                ..old(w)@
            }),
            final(w).wf(),
    {
        w.buf.push(0x28);
        push_slice(&mut w.buf, s);
        w.buf.push(0x29);
        proof {
            assert(w.buf@ =~= old(w).buf@ + string_bytes(s@));
            lemma_offsets_ok_append(old(w)@.bytes, old(w)@.recorded, string_bytes(s@));
        }
        self.close_slot(w);
    }

    /// Write a reference to an indirect object: `<id> 0 R`.
    pub fn id(self, w: &mut PdfWriter, id: Ref)
        requires
            old(w).wf(),
            self.is_indirect() ==> old(w)@.depth >= 1,
        ensures
            final(w)@ == (WriterModel {
                bytes: old(w)@.bytes + ref_bytes(id@) + close_bytes_if(self.is_indirect()),
                depth: (old(w)@.depth - (if self.is_indirect() { 1int } else { 0int })) as nat,
                ..old(w)@
            }),
            final(w).wf(),
    {
        proof {
            use_type_invariant(id);
        }
        let n = id.get();
        push_u64(&mut w.buf, n as u64);
        w.buf.push(0x20);
        w.buf.push(0x30);
        w.buf.push(0x20);
        w.buf.push(0x52);
        proof {
            assert(w.buf@ =~= old(w).buf@ + ref_bytes(id@));
            lemma_offsets_ok_append(old(w)@.bytes, old(w)@.recorded, ref_bytes(id@));
        }
        self.close_slot(w);
    }

    fn close_slot(self, w: &mut PdfWriter)
        requires
            old(w).wf(),
            self.is_indirect() ==> old(w)@.depth >= 1,
        ensures
            final(w)@ == (WriterModel {
                bytes: old(w)@.bytes + close_bytes_if(self.is_indirect()),
                depth: (old(w)@.depth - (if self.is_indirect() { 1int } else { 0int })) as nat,
                ..old(w)@
            }),
            final(w).wf(),
    {
        if self.indirect {
            w.end_indirect();
        } else {
            proof {
                assert(old(w)@.bytes + close_bytes_if(self.is_indirect()) =~= old(w)@.bytes);
            }
        }
    }
}

impl Object {
    /// Write an array: emit the opening bracket and hand out an array
    /// writer for this slot.
    pub fn array(self, w: &mut PdfWriter) -> (r: Array)
        requires
            old(w).wf(),
        ensures
            final(w)@ == (WriterModel { bytes: old(w)@.bytes + seq![0x5bu8], ..old(w)@ }),
            final(w).wf(),
            r.count() == 0,
            r.is_indirect() == self.is_indirect(),
    {
        w.buf.push(0x5b);
        proof {
            assert(w.buf@ =~= old(w).buf@ + seq![0x5bu8]);
            lemma_offsets_ok_append(old(w)@.bytes, old(w)@.recorded, seq![0x5bu8]);
        }
        Array { indirect: self.indirect, len: 0 }
    }

    /// Write a dictionary: apply the current indentation, emit the opening
    /// marker, raise the nesting depth by one, and hand out a dictionary
    /// writer for this slot.
    pub fn dict(self, w: &mut PdfWriter) -> (r: Dict)
        requires
            old(w).wf(),
            old(w)@.depth < usize::MAX,
        ensures
            final(w)@ == (WriterModel {
                bytes: old(w)@.bytes + dict_open_bytes(old(w)@.indent, old(w)@.depth),
                depth: old(w)@.depth + 1,
                ..old(w)@
            }),
            final(w).wf(),
            r.count() == 0,
            r.is_indirect() == self.is_indirect(),
    {
        w.write_indent();
        w.buf.push(0x3c);
        w.buf.push(0x3c);
        w.buf.push(0x0a);
        w.depth = w.depth + 1;
        proof {
            assert(w.buf@ =~= old(w).buf@ + dict_open_bytes(old(w)@.indent, old(w)@.depth));
            lemma_offsets_ok_append(
                old(w)@.bytes,
                old(w)@.recorded,
                dict_open_bytes(old(w)@.indent, old(w)@.depth),
            );
        }
        Dict { indirect: self.indirect, len: 0 }
    }
}

/// The bytes that open a dictionary at the given nesting depth: the
/// indentation, the opening marker, and a line break.
pub open spec fn dict_open_bytes(indent: nat, depth: nat) -> Seq<u8> {
    spaces(indent * depth as int) + seq![0x3cu8, 0x3c, 0x0a]
}

/// The bytes that one key emits: a line break before every key but the
/// first, the indentation, and `/<key> ` with a trailing space.
pub open spec fn dict_key_bytes(first: bool, indent: nat, depth: nat, key: Seq<u8>) -> Seq<u8> {
    (if first {
        Seq::<u8>::empty()
    } else {
        seq![0x0au8]
    }) + spaces(indent * depth as int) + seq![0x2fu8] + key + seq![0x20u8]
}

/// The bytes that close a dictionary: a line break when any key was
/// written, the indentation of the enclosing level, and the closing marker
/// with a line break.
pub open spec fn dict_close_bytes(nonempty: bool, indent: nat, depth: nat) -> Seq<u8> {
    (if nonempty {
        seq![0x0au8]
    } else {
        Seq::<u8>::empty()
    }) + spaces(indent * (depth - 1)) + seq![0x3eu8, 0x3e, 0x0a]
}

/// Writer for an array: an ordered sequence of slots, each obtained from
/// [`Array::item`]. Arrays never change the pretty-print nesting depth;
/// items are laid out on one line.
pub struct Array {
    indirect: bool,
    len: i32,
}

impl Array {
    /// Whether this array is the direct content of an indirect object.
    pub closed spec fn is_indirect(&self) -> bool {
        self.indirect
    }

    /// The number of items written so far.
    pub closed spec fn count(&self) -> int {
        self.len as int
    }

    /// Write an item: a single separating space before every item except
    /// the first, then a slot writer for the item's value.
    pub fn item(&mut self, w: &mut PdfWriter) -> (r: Object)
        requires
            old(w).wf(),
            old(self).count() < i32::MAX,
        ensures
            final(w)@ == (WriterModel {
                bytes: old(w)@.bytes + (if old(self).count() == 0 {
                    Seq::<u8>::empty()
                } else {
                    seq![0x20u8]
                }),
                ..old(w)@
            }),
            final(w).wf(),
            final(self).count() == old(self).count() + 1,
            final(self).is_indirect() == old(self).is_indirect(),
            !r.is_indirect(),
    {
        if self.len != 0 {
            w.buf.push(0x20);
            proof {
                assert(w.buf@ =~= old(w).buf@ + seq![0x20u8]);
                lemma_offsets_ok_append(old(w)@.bytes, old(w)@.recorded, seq![0x20u8]);
            }
        } else {
            proof {
                assert(old(w)@.bytes + Seq::<u8>::empty() =~= old(w)@.bytes);
            }
        }
        self.len = self.len + 1;
        Object::new(false)
    }

    /// The number of written elements.
    pub fn len(&self) -> (r: i32)
        ensures
            r == self.count(),
    {
        self.len
    }

    /// Close the array: emit the closing bracket and, when this array was
    /// the direct content of an indirect object, close that object too.
    pub fn finish(self, w: &mut PdfWriter)
        requires
            old(w).wf(),
            self.is_indirect() ==> old(w)@.depth >= 1,
        ensures
            final(w)@ == (WriterModel {
                bytes: old(w)@.bytes + seq![0x5du8] + close_bytes_if(self.is_indirect()),
                depth: (old(w)@.depth - (if self.is_indirect() { 1int } else { 0int })) as nat,
                ..old(w)@
            }),
            final(w).wf(),
    {
        w.buf.push(0x5d);
        proof {
            assert(w.buf@ =~= old(w).buf@ + seq![0x5du8]);
            lemma_offsets_ok_append(old(w)@.bytes, old(w)@.recorded, seq![0x5du8]);
        }
        Object::new(self.indirect).close_slot(w);
    }
}

/// Writer for a dictionary: an ordered mapping from name to slot. Keys are
/// written in call order and are not deduplicated; the caller is
/// responsible for uniqueness.
pub struct Dict {
    indirect: bool,
    len: i32,
}

impl Dict {
    /// Whether this dictionary is the direct content of an indirect
    /// object.
    pub closed spec fn is_indirect(&self) -> bool {
        self.indirect
    }

    /// The number of keys written so far.
    pub closed spec fn count(&self) -> int {
        self.len as int
    }

    /// Write a key-value pair: a line break before every key except the
    /// first, the indentation, the key as a name token with a trailing
    /// space, then a slot writer for the value.
    pub fn key(&mut self, w: &mut PdfWriter, key: &[u8]) -> (r: Object)
        requires
            old(w).wf(),
            old(self).count() < i32::MAX,
        ensures
            final(w)@ == (WriterModel {
                bytes: old(w)@.bytes + dict_key_bytes(
                    old(self).count() == 0,
                    old(w)@.indent,
                    old(w)@.depth,
                    key@,
                ),
                ..old(w)@
            }),
            final(w).wf(),
            final(self).count() == old(self).count() + 1,
            final(self).is_indirect() == old(self).is_indirect(),
            !r.is_indirect(),
    {
        if self.len != 0 {
            w.buf.push(0x0a);
            proof {
                assert(w.buf@ =~= old(w).buf@ + seq![0x0au8]);
                lemma_offsets_ok_append(old(w)@.bytes, old(w)@.recorded, seq![0x0au8]);
            }
        }
        w.write_indent();
        w.buf.push(0x2f);
        push_slice(&mut w.buf, key);
        w.buf.push(0x20);
        self.len = self.len + 1;
        proof {
            assert(w.buf@ =~= old(w).buf@ + dict_key_bytes(
                old(self).count() == 0,
                old(w)@.indent,
                old(w)@.depth,
                key@,
            ));
            lemma_offsets_ok_append(
                old(w)@.bytes,
                old(w)@.recorded,
                dict_key_bytes(old(self).count() == 0, old(w)@.indent, old(w)@.depth, key@),
            );
        }
        Object::new(false)
    }

    /// Close the dictionary: a line break when any key was written, the
    /// indentation of the enclosing level, the closing marker, and, when
    /// this dictionary was the direct content of an indirect object, close
    /// that object too. Lowers the nesting depth by one.
    pub fn finish(self, w: &mut PdfWriter)
        requires
            old(w).wf(),
            old(w)@.depth >= 1,
            self.is_indirect() ==> old(w)@.depth >= 2,
        ensures
            final(w)@ == (WriterModel {
                bytes: old(w)@.bytes + dict_close_bytes(
                    self.count() != 0,
                    old(w)@.indent,
                    old(w)@.depth,
                ) + close_bytes_if(self.is_indirect()),
                depth: (old(w)@.depth - 1 - (if self.is_indirect() { 1int } else { 0int })) as nat,
                ..old(w)@
            }),
            final(w).wf(),
    {
        if self.len != 0 {
            w.buf.push(0x0a);
            proof {
                assert(w.buf@ =~= old(w).buf@ + seq![0x0au8]);
                lemma_offsets_ok_append(old(w)@.bytes, old(w)@.recorded, seq![0x0au8]);
            }
        }
        w.depth = w.depth - 1;
        w.write_indent();
        w.buf.push(0x3e);
        w.buf.push(0x3e);
        w.buf.push(0x0a);
        proof {
            assert(w.buf@ =~= old(w).buf@ + dict_close_bytes(
                self.count() != 0,
                old(w)@.indent,
                old(w)@.depth,
            ));
            lemma_offsets_ok_append(
                old(w)@.bytes,
                old(w)@.recorded,
                dict_close_bytes(self.count() != 0, old(w)@.indent, old(w)@.depth),
            );
        }
        Object::new(self.indirect).close_slot(w);
    }
}

/// The bytes of the trailer: the keyword `trailer`, a dictionary with
/// exactly the keys `Size` and `Root`, the keyword `startxref`, the byte
/// offset where the table began, and the end-of-file marker.
pub open spec fn trailer_bytes(root: int, size: int, startxref: int, indent: nat) -> Seq<u8> {
    seq![0x74u8, 0x72, 0x61, 0x69, 0x6c, 0x65, 0x72, 0x0a] + dict_open_bytes(indent, 0)
        + dict_key_bytes(true, indent, 1, seq![0x53u8, 0x69, 0x7a, 0x65]) + int_rep(size)
        + dict_key_bytes(false, indent, 1, seq![0x52u8, 0x6f, 0x6f, 0x74]) + ref_bytes(root)
        + dict_close_bytes(true, indent, 1) + seq![
        0x73u8, 0x74, 0x61, 0x72, 0x74, 0x78, 0x72, 0x65, 0x66, 0x0a,
    ] + dec_rep(if startxref < 0 { 0nat } else { startxref as nat }) + seq![
        0x0au8, 0x25, 0x25, 0x45, 0x4f, 0x46, 0x0a,
    ]
}

impl PdfWriter {
    /// Write the cross-reference table and file trailer. An indirect
    /// object may not still be open. The offset table is consumed: it is
    /// sorted by identifier, rendered as the table, and cleared.
    pub fn end(&mut self, root: Ref)
        requires
            old(self).wf(),
            old(self)@.depth == 0,
        ensures
            final(self)@ == (WriterModel {
                bytes: old(self)@.bytes + crate::xref::xref_bytes(
                    crate::xref::sort_pairs(old(self)@.recorded),
                ) + trailer_bytes(
                    root@,
                    crate::xref::xref_size(crate::xref::sort_pairs(old(self)@.recorded)),
                    old(self)@.bytes.len() as int,
                    old(self)@.indent,
                ),
                recorded: Seq::<(int, int)>::empty(),
                depth: 0,
                indent: old(self)@.indent,
            }),
            final(self).wf(),
            offsets_ok(final(self)@.bytes, old(self)@.recorded),
    {
        let (xref_len, xref_offset) = self.xref_table();
        self.trailer(root, xref_len, xref_offset);
        proof {
            let table = crate::xref::xref_bytes(crate::xref::sort_pairs(old(self)@.recorded));
            let tr = trailer_bytes(
                root@,
                crate::xref::xref_size(crate::xref::sort_pairs(old(self)@.recorded)),
                old(self)@.bytes.len() as int,
                old(self)@.indent,
            );
            lemma_offsets_ok_append(old(self)@.bytes, old(self)@.recorded, table + tr);
            assert(old(self)@.bytes + (table + tr) =~= old(self)@.bytes + table + tr);
        }
    }

    fn xref_table(&mut self) -> (r: (i64, usize))
        requires
            old(self).wf(),
        ensures
            final(self)@ == (WriterModel {
                bytes: old(self)@.bytes + crate::xref::xref_bytes(
                    crate::xref::sort_pairs(old(self)@.recorded),
                ),
                recorded: Seq::<(int, int)>::empty(),
                ..old(self)@
            }),
            final(self).wf(),
            r.0 == crate::xref::xref_size(crate::xref::sort_pairs(old(self)@.recorded)),
            r.1 == old(self)@.bytes.len(),
            1 <= r.0,
    {
        crate::xref::sort_offsets(&mut self.offs);
        let ghost sorted = crate::xref::sort_pairs(old(self)@.recorded);
        proof {
            crate::xref::lemma_sort_pairs_props(old(self)@.recorded);
            assert forall|k: int| 0 <= k < sorted.len() implies 1 <= (#[trigger] sorted[k]).0 by {
                assert(sorted.contains(sorted[k]));
                assert(old(self)@.recorded.contains(sorted[k]));
                let j = choose|j: int|
                    0 <= j < old(self)@.recorded.len() && old(self)@.recorded[j] == sorted[k];
                assert(entry_ok(old(self)@.bytes, old(self)@.recorded[j]));
            }
        }
        let xref_offset = self.buf.len();
        self.buf.push(0x78);
        self.buf.push(0x72);
        self.buf.push(0x65);
        self.buf.push(0x66);
        self.buf.push(0x0a);
        let xref_len: i64 = if self.offs.len() == 0 {
            1
        } else {
            proof {
                assert(pairs_view(self.offs@).last() == pair_view(
                    self.offs@[self.offs@.len() - 1],
                ));
            }
            1 + self.offs[self.offs.len() - 1].0 as i64
        };
        self.buf.push(0x30);
        self.buf.push(0x20);
        push_u64(&mut self.buf, xref_len as u64);
        self.buf.push(0x0a);
        proof {
            assert(self.buf@ =~= old(self).buf@ + crate::xref::xref_head(sorted));
        }
        crate::xref::push_free_entry(&mut self.buf);
        let ghost base = self.buf@;
        let ghost mut done: Seq<u8> = Seq::<u8>::empty();
        proof {
            assert(base + done =~= base);
            assert(sorted.skip(0) =~= sorted);
            assert(done + crate::xref::xref_entries(sorted, 1) =~= crate::xref::xref_entries(
                sorted,
                1,
            ));
        }
        let mut next: i64 = 1;
        let mut i: usize = 0;
        while i < self.offs.len()
            invariant
                i <= self.offs@.len(),
                pairs_view(self.offs@) == sorted,
                self.depth == old(self).depth,
                self.indent == old(self).indent,
                self.buf@ == base + done,
                done + crate::xref::xref_entries(sorted.skip(i as int), next as int)
                    == crate::xref::xref_entries(sorted, 1),
                next == if i == 0 {
                    1int
                } else {
                    sorted[i - 1].0 + 1
                },
            decreases self.offs@.len() - i,
        {
            let (id, off) = self.offs[i];
            proof {
                assert(sorted[i as int] == pair_view((id, off)));
            }
            let ghost next0 = next as int;
            let ghost buf0 = self.buf@;
            proof {
                assert(buf0 + crate::xref::free_entries(next - next0) =~= buf0);
            }
            while next < id as i64
                invariant
                    next0 <= next,
                    next <= id as i64 || next == next0,
                    self.buf@ == buf0 + crate::xref::free_entries(next - next0),
                    self.depth == old(self).depth,
                    self.indent == old(self).indent,
                    pairs_view(self.offs@) == sorted,
                    i < self.offs@.len(),
                decreases id as int - next,
            {
                crate::xref::push_free_entry(&mut self.buf);
                proof {
                    crate::xref::lemma_free_entries_snoc(next - next0);
                }
                next = next + 1;
            }
            proof {
                assert(crate::xref::free_entries(id as int - next0) =~= crate::xref::free_entries(
                    next - next0,
                ));
            }
            crate::xref::push_used_entry(&mut self.buf, off as u64);
            next = id as i64 + 1;
            proof {
                let step = crate::xref::free_entries(sorted[i as int].0 - next0)
                    + crate::xref::used_entry_bytes(sorted[i as int].1);
                assert(self.buf@ =~= base + (done + step));
                assert(sorted.skip(i as int)[0] == sorted[i as int]);
                assert(sorted.skip(i as int).drop_first() =~= sorted.skip(i + 1));
                assert(crate::xref::xref_entries(sorted.skip(i as int), next0) == step
                    + crate::xref::xref_entries(sorted.skip(i + 1), sorted[i as int].0 + 1));
                assert((done + step) + crate::xref::xref_entries(
                    sorted.skip(i + 1),
                    sorted[i as int].0 + 1,
                ) =~= done + (step + crate::xref::xref_entries(
                    sorted.skip(i + 1),
                    sorted[i as int].0 + 1,
                )));
                done = done + step;
            }
            i = i + 1;
        }
        proof {
            assert(sorted.skip(sorted.len() as int) =~= Seq::<(int, int)>::empty());
            assert(done + Seq::<u8>::empty() =~= done);
            assert(self.buf@ =~= old(self).buf@ + crate::xref::xref_bytes(sorted));
        }
        self.offs.clear();
        proof {
            assert(pairs_view(self.offs@) =~= Seq::<(int, int)>::empty());
        }
        (xref_len, xref_offset)
    }

    #[verifier::rlimit(50)]
    fn trailer(&mut self, root: Ref, xref_len: i64, xref_offset: usize)
        requires
            old(self).wf(),
            old(self)@.depth == 0,
            1 <= xref_len,
        ensures
            final(self)@ == (WriterModel {
                bytes: old(self)@.bytes + trailer_bytes(
                    root@,
                    xref_len as int,
                    xref_offset as int,
                    old(self)@.indent,
                ),
                depth: 0,
                ..old(self)@
            }),
            final(self).wf(),
    {
        self.buf.push(0x74);
        self.buf.push(0x72);
        self.buf.push(0x61);
        self.buf.push(0x69);
        self.buf.push(0x6c);
        self.buf.push(0x65);
        self.buf.push(0x72);
        self.buf.push(0x0a);
        proof {
            let t = seq![0x74u8, 0x72, 0x61, 0x69, 0x6c, 0x65, 0x72, 0x0a];
            assert(self.buf@ =~= old(self).buf@ + t);
            lemma_offsets_ok_append(old(self)@.bytes, old(self)@.recorded, t);
        }
        let size_key: [u8; 4] = [0x53, 0x69, 0x7a, 0x65];
        let root_key: [u8; 4] = [0x52, 0x6f, 0x6f, 0x74];
        let mut dict = Object::new(false).dict(self);
        let _size_slot = dict.key(self, size_key.as_slice());
        let ghost pre = self.buf@;
        push_u64(&mut self.buf, xref_len as u64);
        proof {
            assert(int_rep(xref_len as int) == dec_rep(xref_len as nat));
            lemma_offsets_ok_append(pre, pairs_view(self.offs@), dec_rep(xref_len as nat));
        }
        let root_slot = dict.key(self, root_key.as_slice());
        root_slot.id(self, root);
        dict.finish(self);
        self.buf.push(0x73);
        self.buf.push(0x74);
        self.buf.push(0x61);
        self.buf.push(0x72);
        self.buf.push(0x74);
        self.buf.push(0x78);
        self.buf.push(0x72);
        self.buf.push(0x65);
        self.buf.push(0x66);
        self.buf.push(0x0a);
        push_u64(&mut self.buf, xref_offset as u64);
        self.buf.push(0x0a);
        self.buf.push(0x25);
        self.buf.push(0x25);
        self.buf.push(0x45);
        self.buf.push(0x4f);
        self.buf.push(0x46);
        self.buf.push(0x0a);
        proof {
            assert(self.buf@ =~= old(self).buf@ + trailer_bytes(
                root@,
                xref_len as int,
                xref_offset as int,
                old(self)@.indent,
            ));
            lemma_offsets_ok_append(
                old(self)@.bytes,
                old(self)@.recorded,
                trailer_bytes(root@, xref_len as int, xref_offset as int, old(self)@.indent),
            );
        }
    }
}

/// Append every byte of `s` to `buf`.
fn push_slice(buf: &mut Vec<u8>, s: &[u8])
    ensures
        final(buf)@ == old(buf)@ + s@,
{
    let mut i: usize = 0;
    while i < s.len()
        invariant
            i <= s.len(),
            buf@ == old(buf)@ + s@.subrange(0, i as int),
        decreases s.len() - i,
    {
        let b = s[i];
        buf.push(b);
        proof {
            assert(buf@ =~= old(buf)@ + s@.subrange(0, i + 1));
        }
        i = i + 1;
    }
    proof {
        assert(buf@ =~= old(buf)@ + s@);
    }
}

} // verus!
