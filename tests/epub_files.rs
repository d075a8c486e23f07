use kepub::epub::{ContentOpf, MetaInfContainer, Toc, XmlError};
use kepub::pdf_meta::PdfMetaField;

const CONTAINER_XML: &str = r#"<?xml version="1.0" encoding="UTF-8" standalone="yes"?>
<container version="1.0" xmlns="urn:oasis:names:tc:opendocument:xmlns:container">
    <rootfiles>
        <rootfile full-path="OEBPS/9781718500457.opf" media-type="application/oebps-package+xml" />
    </rootfiles>
</container>
"#;

const TOC_NCX: &str = r#"<?xml version="1.0" encoding="UTF-8"?>
<ncx xmlns="http://www.daisy.org/z3986/2005/ncx/" version="2005-1">
  <head>
    <meta name="dtb:uid" content="9781098166304"/>
    <meta name="dtb:depth" content="2"/>
  </head>
  <docTitle>
    <text>AI Engineering</text>
  </docTitle>
  <navMap/>
</ncx>
"#;

const CONTENT_OPF: &str = r#"<?xml version="1.0" encoding="UTF-8"?>
<package xmlns="http://www.idpf.org/2007/opf" xmlns:dc="http://purl.org/dc/elements/1.1/" version="2.0">
  <metadata>
    <dc:title>Book</dc:title>
    <dc:creator>Ann Writer</dc:creator>
    <dc:language>en</dc:language>
    <dc:identifier>id-1</dc:identifier>
  </metadata>
  <manifest>
    <item id="c1" href="c1.xhtml" media-type="application/xhtml+xml"/>
    <item id="c2" href="c2.xhtml"/>
  </manifest>
  <spine>
    <itemref idref="c1"/>
    <itemref idref="c2"/>
  </spine>
</package>
"#;

#[test]
fn parses_container_xml_accordingly() {
    let container_xml_bytes = CONTAINER_XML.as_bytes().to_vec();
    let mic = MetaInfContainer::new(container_xml_bytes).ok().unwrap();

    assert_eq!(mic.rootfiles.len(), 1);
    assert_eq!(mic.rootfiles[0].media_type, "application/oebps-package+xml");
    assert_eq!(mic.rootfiles[0].full_path, "OEBPS/9781718500457.opf");
}

#[test]
fn parses_toc_ncx() {
    let toc = Toc::new(TOC_NCX.as_bytes().to_vec()).ok().unwrap();

    assert_eq!(toc.meta.uid, "9781098166304");
    assert_eq!(toc.doc_title.title, "AI Engineering");
}

#[test]
fn container_defaults_and_invalid_utf8() {
    let xml = b"<container><rootfiles><rootfile/></rootfiles></container>".to_vec();
    let mic = MetaInfContainer::new(xml).ok().unwrap();
    assert_eq!(mic.rootfiles.len(), 1);
    assert_eq!(mic.rootfiles[0].full_path, "");
    assert_eq!(mic.rootfiles[0].media_type, "application/oebps-package+xml");
    assert!(matches!(MetaInfContainer::new(vec![0xff, 0xfe, 0x3c]), Err(XmlError::InvalidUtf8)));
}

#[test]
fn toc_without_uid_or_title() {
    let toc = Toc::new(b"<ncx><head><meta name=\"other\" content=\"x\"/></head></ncx>".to_vec())
        .ok()
        .unwrap();
    assert_eq!(toc.meta.uid, "");
    assert_eq!(toc.doc_title.title, "");
}

#[test]
fn parses_content_opf() {
    let opf = ContentOpf::new(CONTENT_OPF.as_bytes().to_vec()).ok().unwrap();
    assert_eq!(opf.metadata.title, "Book");
    assert_eq!(opf.metadata.creator, "Ann Writer");
    assert_eq!(opf.metadata.language, "en");
    assert_eq!(opf.metadata.identifier, "id-1");
    assert_eq!(opf.manifest.len(), 2);
    assert_eq!(opf.manifest[0].id, "c1");
    assert_eq!(opf.manifest[0].href, "c1.xhtml");
    assert_eq!(opf.manifest[0].media_type, "application/xhtml+xml");
    assert_eq!(opf.manifest[1].media_type, "");
    let spine: Vec<&str> = opf.spine.iter().map(|s| s.idref.as_str()).collect();
    assert_eq!(spine, vec!["c1", "c2"]);
}

#[test]
fn malformed_content_opf_is_an_error() {
    assert!(matches!(ContentOpf::new(b"<a><b></a>".to_vec()), Err(XmlError::Malformed(_))));
    assert!(matches!(ContentOpf::new(vec![0xc3, 0x28]), Err(XmlError::InvalidUtf8)));
}

#[test]
fn meta_field_keys() {
    assert_eq!(PdfMetaField::Title.as_bytes(), b"Title");
    assert_eq!(PdfMetaField::ModificationDate.as_bytes(), b"ModDate");
    assert_eq!(PdfMetaField::CreationDate.as_bytes(), b"CreationDate");
    assert_eq!("Author".parse::<PdfMetaField>(), Ok(PdfMetaField::Author));
    assert_eq!(PdfMetaField::from_name("ModificationDate"), Some(PdfMetaField::ModificationDate));
    assert_eq!(PdfMetaField::from_name("bogus"), None);
}
