//! Typed writers for a file specification dictionary, an embedded file
//! dictionary, and its parameter dictionary: thin layers of typed
//! key/value calls over the dictionary writer.

use vstd::prelude::*;

use crate::num::int_rep;
use crate::writer::{
    bool_bytes, close_bytes_if, dict_close_bytes, dict_key_bytes, dict_open_bytes, name_bytes,
    ref_bytes, string_bytes, Dict, Object, PdfWriter, WriterModel, Ref,
};

verus! {

/// The bytes that open a typed dictionary in a value slot: the dictionary
/// opening and its `Type` key with the given name.
pub open spec fn typed_dict_open_bytes(indent: nat, depth: nat, ty: Seq<u8>) -> Seq<u8> {
    dict_open_bytes(indent, depth) + dict_key_bytes(
        true,
        indent,
        (depth + 1) as nat,
        seq![0x54u8, 0x79, 0x70, 0x65],
    ) + name_bytes(ty)
}

/// The name `Filespec`.
pub open spec fn filespec_name() -> Seq<u8> {
    seq![0x46u8, 0x69, 0x6c, 0x65, 0x73, 0x70, 0x65, 0x63]
}

/// The name `EmbeddedFile`.
pub open spec fn embedded_file_name() -> Seq<u8> {
    seq![0x45u8, 0x6d, 0x62, 0x65, 0x64, 0x64, 0x65, 0x64, 0x46, 0x69, 0x6c, 0x65]
}

/// Writer for a file specification dictionary.
pub struct FileSpec {
    dict: Dict,
}

impl FileSpec {
    /// The dictionary stands in the slot the writer was created from; the
    /// flag records whether that slot was the direct content of an
    /// indirect object.
    pub closed spec fn indirect(&self) -> bool {
        self.dict.is_indirect()
    }

    /// The number of keys written so far.
    pub closed spec fn keys(&self) -> int {
        self.dict.count()
    }

    /// Create a new file specification writer in the given slot: a
    /// dictionary whose first key is `Type /Filespec`.
    pub fn new(obj: Object, w: &mut PdfWriter) -> (r: FileSpec)
        requires
            old(w).wf(),
            old(w)@.depth < usize::MAX,
        ensures
            final(w)@ == (WriterModel {
                bytes: old(w)@.bytes + typed_dict_open_bytes(
                    old(w)@.indent,
                    old(w)@.depth,
                    filespec_name(),
                ),
                depth: old(w)@.depth + 1,
                ..old(w)@
            }),
            final(w).wf(),
            r.keys() == 1,
            r.indirect() == obj.is_indirect(),
    {
        let ty: [u8; 4] = [0x54, 0x79, 0x70, 0x65];
        let name: [u8; 8] = [0x46, 0x69, 0x6c, 0x65, 0x73, 0x70, 0x65, 0x63];
        let mut dict = obj.dict(w);
        dict.key(w, ty.as_slice()).name(w, name.as_slice());
        proof {
            assert(w@.bytes =~= old(w)@.bytes + typed_dict_open_bytes(
                old(w)@.indent,
                old(w)@.depth,
                filespec_name(),
            ));
        }
        FileSpec { dict }
    }

    /// Write the `FS` key to set the file system this entry relates to.
    pub fn file_system(&mut self, w: &mut PdfWriter, system: &[u8])
        requires
            old(w).wf(),
            0 < old(self).keys() < i32::MAX,
        ensures
            final(w)@ == (WriterModel {
                bytes: old(w)@.bytes + dict_key_bytes(
                    false,
                    old(w)@.indent,
                    old(w)@.depth,
                    seq![0x46u8, 0x53],
                ) + name_bytes(system@),
                ..old(w)@
            }),
            final(w).wf(),
            final(self).keys() == old(self).keys() + 1,
            final(self).indirect() == old(self).indirect(),
    {
        let key: [u8; 2] = [0x46, 0x53];
        self.dict.key(w, key.as_slice()).name(w, system);
    }

    /// Write the `F` key to set the file path, as a literal string.
    /// Directories are indicated by a solidus, independent of the
    /// platform.
    pub fn path(&mut self, w: &mut PdfWriter, path: &[u8])
        requires
            old(w).wf(),
            0 < old(self).keys() < i32::MAX,
        ensures
            final(w)@ == (WriterModel {
                bytes: old(w)@.bytes + dict_key_bytes(
                    false,
                    old(w)@.indent,
                    old(w)@.depth,
                    seq![0x46u8],
                ) + string_bytes(path@),
                ..old(w)@
            }),
            final(w).wf(),
            final(self).keys() == old(self).keys() + 1,
            final(self).indirect() == old(self).indirect(),
    {
        let key: [u8; 1] = [0x46];
        self.dict.key(w, key.as_slice()).string(w, path);
        proof {
            assert(w@.bytes =~= old(w)@.bytes + dict_key_bytes(
                false,
                old(w)@.indent,
                old(w)@.depth,
                seq![0x46u8],
            ) + string_bytes(path@));
        }
    }

    /// Write the `UF` key to set a Unicode-compatible path, as a literal
    /// string.
    pub fn unic_file(&mut self, w: &mut PdfWriter, path: &[u8])
        requires
            old(w).wf(),
            0 < old(self).keys() < i32::MAX,
        ensures
            final(w)@ == (WriterModel {
                bytes: old(w)@.bytes + dict_key_bytes(
                    false,
                    old(w)@.indent,
                    old(w)@.depth,
                    seq![0x55u8, 0x46],
                ) + string_bytes(path@),
                ..old(w)@
            }),
            final(w).wf(),
            final(self).keys() == old(self).keys() + 1,
            final(self).indirect() == old(self).indirect(),
    {
        let key: [u8; 2] = [0x55, 0x46];
        self.dict.key(w, key.as_slice()).string(w, path);
    }

    /// Write the `V` key to indicate whether to cache the file.
    pub fn volatile(&mut self, w: &mut PdfWriter, no_cache: bool)
        requires
            old(w).wf(),
            0 < old(self).keys() < i32::MAX,
        ensures
            final(w)@ == (WriterModel {
                bytes: old(w)@.bytes + dict_key_bytes(
                    false,
                    old(w)@.indent,
                    old(w)@.depth,
                    seq![0x56u8],
                ) + bool_bytes(no_cache),
                ..old(w)@
            }),
            final(w).wf(),
            final(self).keys() == old(self).keys() + 1,
            final(self).indirect() == old(self).indirect(),
    {
        let key: [u8; 1] = [0x56];
        self.dict.key(w, key.as_slice()).bool(w, no_cache);
        proof {
            assert(w@.bytes =~= old(w)@.bytes + dict_key_bytes(
                false,
                old(w)@.indent,
                old(w)@.depth,
                seq![0x56u8],
            ) + bool_bytes(no_cache));
        }
    }

    /// Write the `Desc` key to set a file description, as a literal
    /// string.
    pub fn description(&mut self, w: &mut PdfWriter, desc: &[u8])
        requires
            old(w).wf(),
            0 < old(self).keys() < i32::MAX,
        ensures
            final(w)@ == (WriterModel {
                bytes: old(w)@.bytes + dict_key_bytes(
                    false,
                    old(w)@.indent,
                    old(w)@.depth,
                    seq![0x44u8, 0x65, 0x73, 0x63],
                ) + string_bytes(desc@),
                ..old(w)@
            }),
            final(w).wf(),
            final(self).keys() == old(self).keys() + 1,
            final(self).indirect() == old(self).indirect(),
    {
        let key: [u8; 4] = [0x44, 0x65, 0x73, 0x63];
        self.dict.key(w, key.as_slice()).string(w, desc);
    }

    /// Write the `EF` key to reference an embedded file: a nested
    /// dictionary whose `F` key refers to the indirect object holding the
    /// file.
    pub fn embedded_file(&mut self, w: &mut PdfWriter, id: Ref)
        requires
            old(w).wf(),
            0 < old(self).keys() < i32::MAX,
            old(w)@.depth < usize::MAX,
        ensures
            final(w)@ == (WriterModel {
                bytes: old(w)@.bytes + dict_key_bytes(
                    false,
                    old(w)@.indent,
                    old(w)@.depth,
                    seq![0x45u8, 0x46],
                ) + dict_open_bytes(old(w)@.indent, old(w)@.depth) + dict_key_bytes(
                    true,
                    old(w)@.indent,
                    (old(w)@.depth + 1) as nat,
                    seq![0x46u8],
                ) + ref_bytes(id@) + dict_close_bytes(
                    true,
                    old(w)@.indent,
                    (old(w)@.depth + 1) as nat,
                ),
                ..old(w)@
            }),
            final(w).wf(),
            final(self).keys() == old(self).keys() + 1,
            final(self).indirect() == old(self).indirect(),
    {
        let ef_key: [u8; 2] = [0x45, 0x46];
        let f_key: [u8; 1] = [0x46];
        let slot = self.dict.key(w, ef_key.as_slice());
        let mut inner = slot.dict(w);
        inner.key(w, f_key.as_slice()).id(w, id);
        inner.finish(w);
        proof {
            assert(w@.bytes =~= old(w)@.bytes + dict_key_bytes(
                false,
                old(w)@.indent,
                old(w)@.depth,
                seq![0x45u8, 0x46],
            ) + dict_open_bytes(old(w)@.indent, old(w)@.depth) + dict_key_bytes(
                true,
                old(w)@.indent,
                (old(w)@.depth + 1) as nat,
                seq![0x46u8],
            ) + ref_bytes(id@) + dict_close_bytes(
                true,
                old(w)@.indent,
                (old(w)@.depth + 1) as nat,
            ));
        }
    }

    /// Close the file specification dictionary; when it was the direct
    /// content of an indirect object, close that object too.
    pub fn finish(self, w: &mut PdfWriter)
        requires
            old(w).wf(),
            old(w)@.depth >= 1,
            self.indirect() ==> old(w)@.depth >= 2,
        ensures
            final(w)@ == (WriterModel {
                bytes: old(w)@.bytes + dict_close_bytes(
                    self.keys() != 0,
                    old(w)@.indent,
                    old(w)@.depth,
                ) + close_bytes_if(self.indirect()),
                depth: (old(w)@.depth - 1 - (if self.indirect() {
                    1int
                } else {
                    0int
                })) as nat,
                ..old(w)@
            }),
            final(w).wf(),
    {
        self.dict.finish(w);
    }
}

/// Writer for an embedded file dictionary.
pub struct EmbeddedFile {
    dict: Dict,
}

impl EmbeddedFile {
    /// Whether the dictionary is the direct content of an indirect
    /// object.
    pub closed spec fn indirect(&self) -> bool {
        self.dict.is_indirect()
    }

    /// The number of keys written so far.
    pub closed spec fn keys(&self) -> int {
        self.dict.count()
    }

    /// Create a new embedded file writer in the given slot: a dictionary
    /// whose first key is `Type /EmbeddedFile`.
    pub fn new(obj: Object, w: &mut PdfWriter) -> (r: EmbeddedFile)
        requires
            old(w).wf(),
            old(w)@.depth < usize::MAX,
        ensures
            final(w)@ == (WriterModel {
                bytes: old(w)@.bytes + typed_dict_open_bytes(
                    old(w)@.indent,
                    old(w)@.depth,
                    embedded_file_name(),
                ),
                depth: old(w)@.depth + 1,
                ..old(w)@
            }),
            final(w).wf(),
            r.keys() == 1,
            r.indirect() == obj.is_indirect(),
    {
        let ty: [u8; 4] = [0x54, 0x79, 0x70, 0x65];
        let name: [u8; 12] = [
            0x45, 0x6d, 0x62, 0x65, 0x64, 0x64, 0x65, 0x64, 0x46, 0x69, 0x6c, 0x65,
        ];
        let mut dict = obj.dict(w);
        dict.key(w, ty.as_slice()).name(w, name.as_slice());
        proof {
            assert(w@.bytes =~= old(w)@.bytes + typed_dict_open_bytes(
                old(w)@.indent,
                old(w)@.depth,
                embedded_file_name(),
            ));
        }
        EmbeddedFile { dict }
    }

    /// Write the `Subtype` key to set the file type, as a name.
    pub fn subtype(&mut self, w: &mut PdfWriter, subtype: &[u8])
        requires
            old(w).wf(),
            0 < old(self).keys() < i32::MAX,
        ensures
            final(w)@ == (WriterModel {
                bytes: old(w)@.bytes + dict_key_bytes(
                    false,
                    old(w)@.indent,
                    old(w)@.depth,
                    seq![0x53u8, 0x75, 0x62, 0x74, 0x79, 0x70, 0x65],
                ) + name_bytes(subtype@),
                ..old(w)@
            }),
            final(w).wf(),
            final(self).keys() == old(self).keys() + 1,
            final(self).indirect() == old(self).indirect(),
    {
        let key: [u8; 7] = [0x53, 0x75, 0x62, 0x74, 0x79, 0x70, 0x65];
        self.dict.key(w, key.as_slice()).name(w, subtype);
    }

    /// Start writing the `Params` dictionary.
    pub fn params(&mut self, w: &mut PdfWriter) -> (r: EmbedParams)
        requires
            old(w).wf(),
            0 < old(self).keys() < i32::MAX,
            old(w)@.depth < usize::MAX,
        ensures
            final(w)@ == (WriterModel {
                bytes: old(w)@.bytes + dict_key_bytes(
                    false,
                    old(w)@.indent,
                    old(w)@.depth,
                    seq![0x50u8, 0x61, 0x72, 0x61, 0x6d, 0x73],
                ) + dict_open_bytes(old(w)@.indent, old(w)@.depth),
                depth: old(w)@.depth + 1,
                ..old(w)@
            }),
            final(w).wf(),
            final(self).keys() == old(self).keys() + 1,
            final(self).indirect() == old(self).indirect(),
            r.keys() == 0,
            !r.indirect(),
    {
        let key: [u8; 6] = [0x50, 0x61, 0x72, 0x61, 0x6d, 0x73];
        let slot = self.dict.key(w, key.as_slice());
        EmbedParams::new(slot, w)
    }

    /// Close the embedded file dictionary; when it was the direct content
    /// of an indirect object, close that object too.
    pub fn finish(self, w: &mut PdfWriter)
        requires
            old(w).wf(),
            old(w)@.depth >= 1,
            self.indirect() ==> old(w)@.depth >= 2,
        ensures
            final(w)@ == (WriterModel {
                bytes: old(w)@.bytes + dict_close_bytes(
                    self.keys() != 0,
                    old(w)@.indent,
                    old(w)@.depth,
                ) + close_bytes_if(self.indirect()),
                depth: (old(w)@.depth - 1 - (if self.indirect() {
                    1int
                } else {
                    0int
                })) as nat,
                ..old(w)@
            }),
            final(w).wf(),
    {
        self.dict.finish(w);
    }
}

/// Writer for an embedded file parameter dictionary.
pub struct EmbedParams {
    dict: Dict,
}

impl EmbedParams {
    /// Whether the dictionary is the direct content of an indirect
    /// object.
    pub closed spec fn indirect(&self) -> bool {
        self.dict.is_indirect()
    }

    /// The number of keys written so far.
    pub closed spec fn keys(&self) -> int {
        self.dict.count()
    }

    /// Create a new embedded file parameter writer in the given slot: a
    /// plain dictionary with no keys yet.
    pub fn new(obj: Object, w: &mut PdfWriter) -> (r: EmbedParams)
        requires
            old(w).wf(),
            old(w)@.depth < usize::MAX,
        ensures
            final(w)@ == (WriterModel {
                bytes: old(w)@.bytes + dict_open_bytes(old(w)@.indent, old(w)@.depth),
                depth: old(w)@.depth + 1,
                ..old(w)@
            }),
            final(w).wf(),
            r.keys() == 0,
            r.indirect() == obj.is_indirect(),
    {
        EmbedParams { dict: obj.dict(w) }
    }

    /// Write the `Size` key to set the uncompressed file size in bytes.
    pub fn size(&mut self, w: &mut PdfWriter, size: i32)
        requires
            old(w).wf(),
            old(self).keys() < i32::MAX,
        ensures
            final(w)@ == (WriterModel {
                bytes: old(w)@.bytes + dict_key_bytes(
                    old(self).keys() == 0,
                    old(w)@.indent,
                    old(w)@.depth,
                    seq![0x53u8, 0x69, 0x7a, 0x65],
                ) + int_rep(size as int),
                ..old(w)@
            }),
            final(w).wf(),
            final(self).keys() == old(self).keys() + 1,
            final(self).indirect() == old(self).indirect(),
    {
        let key: [u8; 4] = [0x53, 0x69, 0x7a, 0x65];
        self.dict.key(w, key.as_slice()).integer(w, size);
    }

    /// Write the `CreationDate` key to set the file creation date, as a
    /// literal string; the caller supplies the formatted date.
    pub fn creation_date(&mut self, w: &mut PdfWriter, date: &[u8])
        requires
            old(w).wf(),
            old(self).keys() < i32::MAX,
        ensures
            final(w)@ == (WriterModel {
                bytes: old(w)@.bytes + dict_key_bytes(
                    old(self).keys() == 0,
                    old(w)@.indent,
                    old(w)@.depth,
                    seq![0x43u8, 0x72, 0x65, 0x61, 0x74, 0x69, 0x6f, 0x6e, 0x44, 0x61, 0x74, 0x65],
                ) + string_bytes(date@),
                ..old(w)@
            }),
            final(w).wf(),
            final(self).keys() == old(self).keys() + 1,
            final(self).indirect() == old(self).indirect(),
    {
        let key: [u8; 12] = [
            0x43, 0x72, 0x65, 0x61, 0x74, 0x69, 0x6f, 0x6e, 0x44, 0x61, 0x74, 0x65,
        ];
        self.dict.key(w, key.as_slice()).string(w, date);
    }

    /// Write the `ModDate` key to set the file modification date, as a
    /// literal string; the caller supplies the formatted date.
    pub fn modification_date(&mut self, w: &mut PdfWriter, date: &[u8])
        requires
            old(w).wf(),
            old(self).keys() < i32::MAX,
        ensures
            final(w)@ == (WriterModel {
                bytes: old(w)@.bytes + dict_key_bytes(
                    old(self).keys() == 0,
                    old(w)@.indent,
                    old(w)@.depth,
                    seq![0x4du8, 0x6f, 0x64, 0x44, 0x61, 0x74, 0x65],
                ) + string_bytes(date@),
                ..old(w)@
            }),
            final(w).wf(),
            final(self).keys() == old(self).keys() + 1,
            final(self).indirect() == old(self).indirect(),
    {
        let key: [u8; 7] = [0x4d, 0x6f, 0x64, 0x44, 0x61, 0x74, 0x65];
        self.dict.key(w, key.as_slice()).string(w, date);
    }

    /// Write the `CheckSum` key to set the file checksum, as a literal
    /// string; the checksum shall be a sixteen-byte digest string.
    pub fn checksum(&mut self, w: &mut PdfWriter, checksum: &[u8])
        requires
            old(w).wf(),
            old(self).keys() < i32::MAX,
        ensures
            final(w)@ == (WriterModel {
                bytes: old(w)@.bytes + dict_key_bytes(
                    old(self).keys() == 0,
                    old(w)@.indent,
                    old(w)@.depth,
                    seq![0x43u8, 0x68, 0x65, 0x63, 0x6b, 0x53, 0x75, 0x6d],
                ) + string_bytes(checksum@),
                ..old(w)@
            }),
            final(w).wf(),
            final(self).keys() == old(self).keys() + 1,
            final(self).indirect() == old(self).indirect(),
    {
        let key: [u8; 8] = [0x43, 0x68, 0x65, 0x63, 0x6b, 0x53, 0x75, 0x6d];
        self.dict.key(w, key.as_slice()).string(w, checksum);
    }

    /// Close the parameter dictionary; when it was the direct content of
    /// an indirect object, close that object too.
    pub fn finish(self, w: &mut PdfWriter)
        requires
            old(w).wf(),
            old(w)@.depth >= 1,
            self.indirect() ==> old(w)@.depth >= 2,
        ensures
            final(w)@ == (WriterModel {
                bytes: old(w)@.bytes + dict_close_bytes(
                    self.keys() != 0,
                    old(w)@.indent,
                    old(w)@.depth,
                ) + close_bytes_if(self.indirect()),
                depth: (old(w)@.depth - 1 - (if self.indirect() {
                    1int
                } else {
                    0int
                })) as nat,
                ..old(w)@
            }),
            final(w).wf(),
    {
        self.dict.finish(w);
    }
}

} // verus!
