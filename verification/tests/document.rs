use pdf_writer::{PdfWriter, Ref};

fn text_of(buf: Vec<u8>) -> String {
    String::from_utf8(buf).expect("output is ASCII")
}

#[test]
fn empty_document_has_one_entry_table() {
    let mut w = PdfWriter::new();
    w.start(1, 7);
    w.end(Ref::new(1));
    let text = text_of(w.into_buf());
    let header = "%PDF-1.7\n\n";
    let expected = format!(
        "{}xref\n0 1\n0000000000 65535 f\r\ntrailer\n<<\n/Size 1\n/Root 1 0 R\n>>\nstartxref\n{}\n%%EOF\n",
        header,
        header.len()
    );
    assert_eq!(text, expected);
}

#[test]
fn three_object_document() {
    let mut w = PdfWriter::new();
    w.start(1, 7);

    let catalog = Ref::new(1);
    let tree = Ref::new(2);
    let page = Ref::new(3);

    let mut c = w.catalog(catalog);
    c.pages(&mut w, tree);
    c.finish(&mut w);

    let mut p = w.pages(tree);
    p.kids(&mut w, &[page]);
    p.finish(&mut w);

    let obj = w.obj(page);
    let mut d = obj.dict(&mut w);
    d.key(&mut w, b"Type").name(&mut w, b"Page");
    d.key(&mut w, b"Parent").id(&mut w, tree);
    let slot = d.key(&mut w, b"MediaBox");
    let mut media = slot.array(&mut w);
    media.item(&mut w).integer(&mut w, 0);
    media.item(&mut w).integer(&mut w, 0);
    media.item(&mut w).integer(&mut w, 595);
    media.item(&mut w).integer(&mut w, 842);
    media.finish(&mut w);
    d.finish(&mut w);

    w.end(catalog);
    let text = text_of(w.into_buf());

    let mut expected = String::new();
    expected += "%PDF-1.7\n\n";
    let off1 = expected.len();
    expected += "1 0 obj\n<<\n/Type /Catalog\n/Pages 2 0 R\n>>\nendobj\n\n";
    let off2 = expected.len();
    expected += "2 0 obj\n<<\n/Type /Pages\n/Kids [3 0 R]\n/Count 1\n>>\nendobj\n\n";
    let off3 = expected.len();
    expected += "3 0 obj\n<<\n/Type /Page\n/Parent 2 0 R\n/MediaBox [0 0 595 842]\n>>\nendobj\n\n";
    let xref_off = expected.len();
    expected += "xref\n0 4\n";
    expected += "0000000000 65535 f\r\n";
    expected += &format!("{:010} 00000 n\r\n", off1);
    expected += &format!("{:010} 00000 n\r\n", off2);
    expected += &format!("{:010} 00000 n\r\n", off3);
    expected += &format!(
        "trailer\n<<\n/Size 4\n/Root 1 0 R\n>>\nstartxref\n{}\n%%EOF\n",
        xref_off
    );
    assert_eq!(text, expected);
}

#[test]
fn xref_entries_decode_offsets_and_unused_ids_are_free() {
    // Objects opened out of order, with identifier 2 never used: the
    // table must have 1 + max(id) entries, the entry of each used
    // identifier must decode to the position of its `obj` line, and the
    // gap must be a zero-offset free entry.
    let mut w = PdfWriter::new();
    w.start(1, 0);
    let a = w.obj(Ref::new(3));
    a.integer(&mut w, 42);
    let b = w.obj(Ref::new(1));
    b.bool(&mut w, true);
    w.end(Ref::new(1));
    let buf = w.into_buf();
    let text = String::from_utf8(buf.clone()).unwrap();

    // Locate the table through the startxref line.
    let start = text.find("\nstartxref\n").unwrap() + "\nstartxref\n".len();
    let end = text[start..].find('\n').unwrap() + start;
    let xref_off: usize = text[start..end].parse().unwrap();
    assert!(text[xref_off..].starts_with("xref\n0 4\n"));

    let entries = &text[xref_off + "xref\n0 4\n".len()..];
    let entry = |k: usize| &entries[20 * k..20 * k + 20];
    assert_eq!(entry(0), "0000000000 65535 f\r\n");
    assert_eq!(entry(2), "0000000000 65535 f\r\n");

    for id in [1usize, 3] {
        let e = entry(id);
        assert!(e.ends_with(" 00000 n\r\n"));
        let off: usize = e[..10].parse().unwrap();
        let line = format!("{} 0 obj\n", id);
        assert_eq!(&text[off..off + line.len()], line.as_str());
    }
}

#[test]
fn offsets_are_ten_digit_zero_padded() {
    let mut w = PdfWriter::new();
    w.start(1, 7);
    let o = w.obj(Ref::new(1));
    o.integer(&mut w, 7);
    w.end(Ref::new(1));
    let text = text_of(w.into_buf());
    // The header is ten bytes long, so the one used entry reads
    // 0000000010.
    assert!(text.contains("0000000010 00000 n\r\n"));
}

#[test]
fn indentation_applies_to_dictionaries() {
    let mut w = PdfWriter::new();
    w.set_indent(2);
    let obj = w.obj(Ref::new(1));
    let mut d = obj.dict(&mut w);
    d.key(&mut w, b"K").integer(&mut w, 1);
    d.finish(&mut w);
    let text = text_of(w.into_buf());
    assert_eq!(text, "1 0 obj\n  <<\n    /K 1\n  >>\nendobj\n\n");
}
