//! Typed writers for the document catalog, the page tree, and a page:
//! thin layers of typed key/value calls over the dictionary writer.

use vstd::prelude::*;

use crate::num::int_rep;
use crate::writer::{
    close_bytes_if, dict_close_bytes, dict_key_bytes, dict_open_bytes, name_bytes, obj_open_bytes,
    ref_bytes, Dict, PdfWriter, Ref, WriterModel,
};

verus! {

/// The bytes that open a typed dictionary as the content of an indirect
/// object: the object's opening line, the dictionary opening, and its
/// `Type` key with the given name.
pub open spec fn typed_obj_open_bytes(id: int, indent: nat, ty: Seq<u8>) -> Seq<u8> {
    obj_open_bytes(id) + dict_open_bytes(indent, 1) + dict_key_bytes(
        true,
        indent,
        2,
        seq![0x54u8, 0x79, 0x70, 0x65],
    ) + name_bytes(ty)
}

/// The name `Catalog`.
pub open spec fn catalog_name() -> Seq<u8> {
    seq![0x43u8, 0x61, 0x74, 0x61, 0x6c, 0x6f, 0x67]
}

/// The name `Pages`.
pub open spec fn pages_name() -> Seq<u8> {
    seq![0x50u8, 0x61, 0x67, 0x65, 0x73]
}

/// The name `Page`.
pub open spec fn page_name() -> Seq<u8> {
    seq![0x50u8, 0x61, 0x67, 0x65]
}

impl PdfWriter {
    /// Start writing the document catalog: an indirect object holding a
    /// dictionary whose first key is `Type /Catalog`.
    pub fn catalog(&mut self, id: Ref) -> (r: Catalog)
        requires
            old(self).wf(),
            old(self)@.depth == 0,
        ensures
            final(self)@ == (WriterModel {
                bytes: old(self)@.bytes + typed_obj_open_bytes(
                    id@,
                    old(self)@.indent,
                    catalog_name(),
                ),
                recorded: old(self)@.recorded.push((id@, old(self)@.bytes.len() as int)),
                depth: 2,
                ..old(self)@
            }),
            final(self).wf(),
            r.keys() == 1,
            r.indirect(),
    {
        let ty: [u8; 4] = [0x54, 0x79, 0x70, 0x65];
        let name: [u8; 7] = [0x43, 0x61, 0x74, 0x61, 0x6c, 0x6f, 0x67];
        let obj = self.obj(id);
        let mut dict = obj.dict(self);
        dict.key(self, ty.as_slice()).name(self, name.as_slice());
        proof {
            assert(self@.bytes =~= old(self)@.bytes + typed_obj_open_bytes(
                id@,
                old(self)@.indent,
                catalog_name(),
            ));
        }
        Catalog { dict }
    }

    /// Start writing a page tree: an indirect object holding a dictionary
    /// whose first key is `Type /Pages`.
    pub fn pages(&mut self, id: Ref) -> (r: Pages)
        requires
            old(self).wf(),
            old(self)@.depth == 0,
        ensures
            final(self)@ == (WriterModel {
                bytes: old(self)@.bytes + typed_obj_open_bytes(
                    id@,
                    old(self)@.indent,
                    pages_name(),
                ),
                recorded: old(self)@.recorded.push((id@, old(self)@.bytes.len() as int)),
                depth: 2,
                ..old(self)@
            }),
            final(self).wf(),
            r.keys() == 1,
            r.indirect(),
    {
        let ty: [u8; 4] = [0x54, 0x79, 0x70, 0x65];
        let name: [u8; 5] = [0x50, 0x61, 0x67, 0x65, 0x73];
        let obj = self.obj(id);
        let mut dict = obj.dict(self);
        dict.key(self, ty.as_slice()).name(self, name.as_slice());
        proof {
            assert(self@.bytes =~= old(self)@.bytes + typed_obj_open_bytes(
                id@,
                old(self)@.indent,
                pages_name(),
            ));
        }
        Pages { dict }
    }

    /// Start writing a page: an indirect object holding a dictionary
    /// whose first key is `Type /Page`.
    pub fn page(&mut self, id: Ref) -> (r: Page)
        requires
            old(self).wf(),
            old(self)@.depth == 0,
        ensures
            final(self)@ == (WriterModel {
                bytes: old(self)@.bytes + typed_obj_open_bytes(id@, old(self)@.indent, page_name()),
                recorded: old(self)@.recorded.push((id@, old(self)@.bytes.len() as int)),
                depth: 2,
                ..old(self)@
            }),
            final(self).wf(),
            r.keys() == 1,
            r.indirect(),
    {
        let ty: [u8; 4] = [0x54, 0x79, 0x70, 0x65];
        let name: [u8; 4] = [0x50, 0x61, 0x67, 0x65];
        let obj = self.obj(id);
        let mut dict = obj.dict(self);
        dict.key(self, ty.as_slice()).name(self, name.as_slice());
        proof {
            assert(self@.bytes =~= old(self)@.bytes + typed_obj_open_bytes(
                id@,
                old(self)@.indent,
                page_name(),
            ));
        }
        Page { dict }
    }
}

/// Writer for the document catalog dictionary.
pub struct Catalog {
    dict: Dict,
}

impl Catalog {
    /// The dictionary is the direct content of an indirect object; it
    /// holds of every writer these constructors hand out.
    pub closed spec fn indirect(&self) -> bool {
        self.dict.is_indirect()
    }

    /// The number of keys written so far.
    pub closed spec fn keys(&self) -> int {
        self.dict.count()
    }

    /// Write the `Pages` key pointing to the root page tree.
    pub fn pages(&mut self, w: &mut PdfWriter, id: Ref)
        requires
            old(w).wf(),
            0 < old(self).keys() < i32::MAX,
        ensures
            final(w)@ == (WriterModel {
                bytes: old(w)@.bytes + dict_key_bytes(
                    false,
                    old(w)@.indent,
                    old(w)@.depth,
                    seq![0x50u8, 0x61, 0x67, 0x65, 0x73],
                ) + ref_bytes(id@),
                ..old(w)@
            }),
            final(w).wf(),
            final(self).keys() == old(self).keys() + 1,
            final(self).indirect() == old(self).indirect(),
    {
        let key: [u8; 5] = [0x50, 0x61, 0x67, 0x65, 0x73];
        self.dict.key(w, key.as_slice()).id(w, id);
    }

    /// Close the catalog's dictionary and its indirect object.
    pub fn finish(self, w: &mut PdfWriter)
        requires
            old(w).wf(),
            old(w)@.depth >= 2,
            self.indirect(),
        ensures
            final(w)@ == (WriterModel {
                bytes: old(w)@.bytes + dict_close_bytes(
                    self.keys() != 0,
                    old(w)@.indent,
                    old(w)@.depth,
                ) + close_bytes_if(true),
                depth: (old(w)@.depth - 2) as nat,
                ..old(w)@
            }),
            final(w).wf(),
    {
        self.dict.finish(w);
    }
}

/// Writer for a page tree dictionary.
pub struct Pages {
    dict: Dict,
}

impl Pages {
    /// The dictionary is the direct content of an indirect object; it
    /// holds of every writer these constructors hand out.
    pub closed spec fn indirect(&self) -> bool {
        self.dict.is_indirect()
    }

    /// The number of keys written so far.
    pub closed spec fn keys(&self) -> int {
        self.dict.count()
    }

    /// Write the `Parent` key.
    pub fn parent(&mut self, w: &mut PdfWriter, parent: Ref)
        requires
            old(w).wf(),
            0 < old(self).keys() < i32::MAX,
        ensures
            final(w)@ == (WriterModel {
                bytes: old(w)@.bytes + dict_key_bytes(
                    false,
                    old(w)@.indent,
                    old(w)@.depth,
                    seq![0x50u8, 0x61, 0x72, 0x65, 0x6e, 0x74],
                ) + ref_bytes(parent@),
                ..old(w)@
            }),
            final(w).wf(),
            final(self).keys() == old(self).keys() + 1,
            final(self).indirect() == old(self).indirect(),
    {
        let key: [u8; 6] = [0x50, 0x61, 0x72, 0x65, 0x6e, 0x74];
        self.dict.key(w, key.as_slice()).id(w, parent);
    }

    /// Write the `Kids` key as an array of references to the given pages,
    /// and the `Count` key with their number.
    pub fn kids(&mut self, w: &mut PdfWriter, kids: &[Ref])
        requires
            old(w).wf(),
            0 < old(self).keys() < i32::MAX - 1,
            kids@.len() <= i32::MAX,
        ensures
            final(w)@ == (WriterModel {
                bytes: old(w)@.bytes + dict_key_bytes(
                    false,
                    old(w)@.indent,
                    old(w)@.depth,
                    seq![0x4bu8, 0x69, 0x64, 0x73],
                ) + seq![0x5bu8] + ref_items_bytes(kids@) + seq![0x5du8] + dict_key_bytes(
                    false,
                    old(w)@.indent,
                    old(w)@.depth,
                    seq![0x43u8, 0x6f, 0x75, 0x6e, 0x74],
                ) + int_rep(kids@.len() as int),
                ..old(w)@
            }),
            final(w).wf(),
            final(self).keys() == old(self).keys() + 2,
            final(self).indirect() == old(self).indirect(),
    {
        let kids_key: [u8; 4] = [0x4b, 0x69, 0x64, 0x73];
        let count_key: [u8; 5] = [0x43, 0x6f, 0x75, 0x6e, 0x74];
        let slot = self.dict.key(w, kids_key.as_slice());
        let mut array = slot.array(w);
        let ghost base = w@.bytes;
        let mut i: usize = 0;
        proof {
            assert(base + ref_items_bytes(kids@.subrange(0, 0)) =~= base);
        }
        while i < kids.len()
            invariant
                i <= kids@.len(),
                kids@.len() <= i32::MAX,
                array.count() == i as int,
                !array.is_indirect(),
                w@ == (WriterModel { bytes: base + ref_items_bytes(kids@.subrange(0, i as int)), ..old(w)@ }),
                w.wf(),
            decreases kids@.len() - i,
        {
            let item = array.item(w);
            item.id(w, kids[i]);
            proof {
                lemma_ref_items_snoc(kids@, i as int);
                assert(w@.bytes =~= base + ref_items_bytes(kids@.subrange(0, i + 1)));
            }
            i = i + 1;
        }
        proof {
            assert(kids@.subrange(0, kids@.len() as int) =~= kids@);
        }
        let n = array.len();
        array.finish(w);
        self.dict.key(w, count_key.as_slice()).integer(w, n);
    }

    /// Close the page tree's dictionary and its indirect object.
    pub fn finish(self, w: &mut PdfWriter)
        requires
            old(w).wf(),
            old(w)@.depth >= 2,
            self.indirect(),
        ensures
            final(w)@ == (WriterModel {
                bytes: old(w)@.bytes + dict_close_bytes(
                    self.keys() != 0,
                    old(w)@.indent,
                    old(w)@.depth,
                ) + close_bytes_if(true),
                depth: (old(w)@.depth - 2) as nat,
                ..old(w)@
            }),
            final(w).wf(),
    {
        self.dict.finish(w);
    }
}

/// The items of an array of references: each reference's bytes, a single
/// space before every item except the first.
pub open spec fn ref_items_bytes(ids: Seq<Ref>) -> Seq<u8>
    decreases ids.len(),
{
    if ids.len() == 0 {
        Seq::<u8>::empty()
    } else {
        ref_items_bytes(ids.drop_last()) + (if ids.len() == 1 {
            Seq::<u8>::empty()
        } else {
            seq![0x20u8]
        }) + ref_bytes(ids.last()@)
    }
}

proof fn lemma_ref_items_snoc(ids: Seq<Ref>, i: int)
    requires
        0 <= i < ids.len(),
    ensures
        ref_items_bytes(ids.subrange(0, i + 1)) == ref_items_bytes(ids.subrange(0, i)) + (if i
            == 0 {
            Seq::<u8>::empty()
        } else {
            seq![0x20u8]
        }) + ref_bytes(ids[i]@),
{
    let cur = ids.subrange(0, i + 1);
    assert(cur.drop_last() =~= ids.subrange(0, i));
    assert(cur.last() == ids[i]);
}

/// Writer for a page dictionary.
pub struct Page {
    dict: Dict,
}

impl Page {
    /// The dictionary is the direct content of an indirect object; it
    /// holds of every writer these constructors hand out.
    pub closed spec fn indirect(&self) -> bool {
        self.dict.is_indirect()
    }

    /// The number of keys written so far.
    pub closed spec fn keys(&self) -> int {
        self.dict.count()
    }

    /// Write the `Parent` key.
    pub fn parent(&mut self, w: &mut PdfWriter, parent: Ref)
        requires
            old(w).wf(),
            0 < old(self).keys() < i32::MAX,
        ensures
            final(w)@ == (WriterModel {
                bytes: old(w)@.bytes + dict_key_bytes(
                    false,
                    old(w)@.indent,
                    old(w)@.depth,
                    seq![0x50u8, 0x61, 0x72, 0x65, 0x6e, 0x74],
                ) + ref_bytes(parent@),
                ..old(w)@
            }),
            final(w).wf(),
            final(self).keys() == old(self).keys() + 1,
            final(self).indirect() == old(self).indirect(),
    {
        let key: [u8; 6] = [0x50, 0x61, 0x72, 0x65, 0x6e, 0x74];
        self.dict.key(w, key.as_slice()).id(w, parent);
    }

    /// Close the page's dictionary and its indirect object.
    pub fn finish(self, w: &mut PdfWriter)
        requires
            old(w).wf(),
            old(w)@.depth >= 2,
            self.indirect(),
        ensures
            final(w)@ == (WriterModel {
                bytes: old(w)@.bytes + dict_close_bytes(
                    self.keys() != 0,
                    old(w)@.indent,
                    old(w)@.depth,
                ) + close_bytes_if(true),
                depth: (old(w)@.depth - 2) as nat,
                ..old(w)@
            }),
            final(w).wf(),
    {
        self.dict.finish(w);
    }
}

} // verus!
