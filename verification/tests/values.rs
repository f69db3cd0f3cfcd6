use pdf_writer::{EmbedParams, EmbeddedFile, FileSpec, PdfWriter, Ref};

fn text_of(buf: Vec<u8>) -> String {
    String::from_utf8(buf).expect("output is ASCII")
}

#[test]
fn reference_round_trips() {
    assert_eq!(Ref::new(1).get(), 1);
    assert_eq!(Ref::new(i32::MAX).get(), i32::MAX);
    let r = Ref::new(17);
    assert_eq!(r, r.clone());
}

#[test]
fn primitive_values() {
    let mut w = PdfWriter::new();
    let obj = w.obj(Ref::new(1));
    let mut arr = obj.array(&mut w);
    arr.item(&mut w).bool(&mut w, true);
    arr.item(&mut w).bool(&mut w, false);
    arr.item(&mut w).integer(&mut w, 0);
    arr.item(&mut w).integer(&mut w, -12);
    arr.item(&mut w).integer(&mut w, i32::MAX);
    arr.item(&mut w).integer(&mut w, i32::MIN);
    arr.item(&mut w).name(&mut w, b"Name");
    arr.item(&mut w).string(&mut w, b"hi there");
    arr.item(&mut w).id(&mut w, Ref::new(9));
    arr.finish(&mut w);
    let text = text_of(w.into_buf());
    assert_eq!(
        text,
        "1 0 obj\n[true false 0 -12 2147483647 -2147483648 /Name (hi there) 9 0 R]endobj\n\n"
    );
}

#[test]
fn array_len_counts_items() {
    let mut w = PdfWriter::new();
    let obj = w.obj(Ref::new(1));
    let mut arr = obj.array(&mut w);
    assert_eq!(arr.len(), 0);
    arr.item(&mut w).integer(&mut w, -5);
    assert_eq!(arr.len(), 1);
    arr.item(&mut w).bool(&mut w, false);
    arr.item(&mut w).name(&mut w, b"N");
    assert_eq!(arr.len(), 3);
    arr.finish(&mut w);
    let text = text_of(w.into_buf());
    assert!(text.contains("[-5 false /N]"));
}

#[test]
fn empty_array_and_dict() {
    let mut w = PdfWriter::new();
    let obj = w.obj(Ref::new(1));
    let arr = obj.array(&mut w);
    arr.finish(&mut w);
    let obj = w.obj(Ref::new(2));
    let d = obj.dict(&mut w);
    d.finish(&mut w);
    let text = text_of(w.into_buf());
    assert_eq!(text, "1 0 obj\n[]endobj\n\n2 0 obj\n<<\n>>\nendobj\n\n");
}

#[test]
fn page_tree_with_several_kids() {
    let mut w = PdfWriter::new();
    let tree = Ref::new(4);
    let mut p = w.pages(tree);
    p.parent(&mut w, Ref::new(1));
    p.kids(&mut w, &[Ref::new(5), Ref::new(6), Ref::new(7)]);
    p.finish(&mut w);
    let text = text_of(w.into_buf());
    assert_eq!(
        text,
        "4 0 obj\n<<\n/Type /Pages\n/Parent 1 0 R\n/Kids [5 0 R 6 0 R 7 0 R]\n/Count 3\n>>\nendobj\n\n"
    );
}

#[test]
fn page_with_parent() {
    let mut w = PdfWriter::new();
    let mut p = w.page(Ref::new(3));
    p.parent(&mut w, Ref::new(2));
    p.finish(&mut w);
    let text = text_of(w.into_buf());
    assert_eq!(text, "3 0 obj\n<<\n/Type /Page\n/Parent 2 0 R\n>>\nendobj\n\n");
}

#[test]
fn file_spec_dictionary() {
    let mut w = PdfWriter::new();
    let obj = w.obj(Ref::new(7));
    let mut fs = FileSpec::new(obj, &mut w);
    fs.file_system(&mut w, b"URL");
    fs.path(&mut w, b"/tmp/data.bin");
    fs.unic_file(&mut w, b"/tmp/data.bin");
    fs.volatile(&mut w, true);
    fs.description(&mut w, b"raw data");
    fs.embedded_file(&mut w, Ref::new(8));
    fs.finish(&mut w);
    let text = text_of(w.into_buf());
    assert_eq!(
        text,
        "7 0 obj\n<<\n/Type /Filespec\n/FS /URL\n/F (/tmp/data.bin)\n/UF (/tmp/data.bin)\n/V true\n/Desc (raw data)\n/EF <<\n/F 8 0 R\n>>\n\n>>\nendobj\n\n"
    );
}

#[test]
fn embedded_file_with_params() {
    let mut w = PdfWriter::new();
    let obj = w.obj(Ref::new(2));
    let mut ef = EmbeddedFile::new(obj, &mut w);
    ef.subtype(&mut w, b"text#2Fplain");
    let mut params = ef.params(&mut w);
    params.size(&mut w, 1024);
    params.creation_date(&mut w, b"D:20200101000000Z");
    params.modification_date(&mut w, b"D:20200102000000Z");
    params.checksum(&mut w, b"0123456789abcdef");
    params.finish(&mut w);
    ef.finish(&mut w);
    let text = text_of(w.into_buf());
    assert_eq!(
        text,
        "2 0 obj\n<<\n/Type /EmbeddedFile\n/Subtype /text#2Fplain\n/Params <<\n/Size 1024\n/CreationDate (D:20200101000000Z)\n/ModDate (D:20200102000000Z)\n/CheckSum (0123456789abcdef)\n>>\n\n>>\nendobj\n\n"
    );
}

#[test]
fn embed_params_standalone() {
    let mut w = PdfWriter::new();
    let obj = w.obj(Ref::new(5));
    let mut params = EmbedParams::new(obj, &mut w);
    params.size(&mut w, 0);
    params.finish(&mut w);
    let text = text_of(w.into_buf());
    assert_eq!(text, "5 0 obj\n<<\n/Size 0\n>>\nendobj\n\n");
}

#[test]
fn header_versions() {
    let mut w = PdfWriter::new();
    w.start(2, 0);
    let text = text_of(w.into_buf());
    assert_eq!(text, "%PDF-2.0\n\n");
}

#[test]
fn duplicate_dict_keys_are_written_verbatim() {
    // Keys are not deduplicated; uniqueness is the caller's concern.
    let mut w = PdfWriter::new();
    let obj = w.obj(Ref::new(1));
    let mut d = obj.dict(&mut w);
    d.key(&mut w, b"K").integer(&mut w, 1);
    d.key(&mut w, b"K").integer(&mut w, 2);
    d.finish(&mut w);
    let text = text_of(w.into_buf());
    assert_eq!(text, "1 0 obj\n<<\n/K 1\n/K 2\n>>\nendobj\n\n");
}

#[test]
fn indentation_applies_to_the_trailer() {
    let mut w = PdfWriter::new();
    w.set_indent(2);
    w.start(1, 7);
    w.end(Ref::new(1));
    let text = text_of(w.into_buf());
    let expected = "%PDF-1.7\n\nxref\n0 1\n0000000000 65535 f\r\ntrailer\n<<\n  /Size 1\n  /Root 1 0 R\n>>\nstartxref\n10\n%%EOF\n";
    assert_eq!(text, expected);
}
