//! The small XML files of an EPUB archive: `META-INF/container.xml`, the
//! package document (`content.opf`) and the table of contents (`toc.ncx`).
use vstd::prelude::*;
use vstd::utf8::valid_utf8;

use crate::xml_events::{
    attr_views, find_attr, find_last_attr, first_attr, is_utf8, item_views, last_attr, read_xml,
    text_is, xml_items, XmlItem, XmlItemView,
};

verus! {

/// Where the table of contents lives in the archive.
pub const TOC_NCX: &'static str = "OEBPS/toc.ncx";

/// Where the container file lives in the archive.
pub const CONTAINER_XML: &'static str = "META-INF/container.xml";

/// Why an XML file of the archive could not be read.
pub enum XmlError {
    /// The bytes are not UTF-8.
    InvalidUtf8,
    /// The XML is malformed; the parser's message.
    Malformed(String),
}

/// The `dtb:uid` of `toc.ncx`.
pub struct TocMeta {
    pub uid: String,
}

/// The `docTitle` of `toc.ncx`.
pub struct DocTitle {
    pub title: String,
}

/// `toc.ncx`, the table of contents of an EPUB archive.
pub struct Toc {
    pub meta: TocMeta,
    pub doc_title: DocTitle,
}

/// A `rootfile` element of `META-INF/container.xml`.
pub struct RootFile {
    pub full_path: String,
    pub media_type: String,
}

/// `META-INF/container.xml`.
pub struct MetaInfContainer {
    pub rootfiles: Vec<RootFile>,
}

/// The metadata of the package document.
pub struct Metadata {
    pub title: String,
    pub creator: String,
    pub language: String,
    pub identifier: String,
}

/// An `item` of the package manifest.
pub struct ManifestItem {
    pub id: String,
    pub href: String,
    pub media_type: String,
}

/// An `itemref` of the package spine.
pub struct SpineItem {
    pub idref: String,
}

/// The package document, `content.opf`.
pub struct ContentOpf {
    pub metadata: Metadata,
    pub manifest: Vec<ManifestItem>,
    pub spine: Vec<SpineItem>,
}

pub open spec fn or_empty(o: Option<Seq<char>>) -> Seq<char> {
    match o {
        Some(v) => v,
        None => Seq::<char>::empty(),
    }
}

/// The uid from the events on: the `content` of the last `meta` whose
/// `name` is `dtb:uid` before the end of `ncx`, else `uid`.
pub open spec fn uid_from(items: Seq<XmlItemView>, uid: Seq<char>) -> Seq<char>
    decreases items.len(),
{
    if items.len() == 0 {
        uid
    } else {
        match items[0] {
            XmlItemView::Start { name, attributes } => {
                let n = first_attr(attributes, "name"@);
                let c = first_attr(attributes, "content"@);
                let u = if name == "meta"@ && n == Some("dtb:uid"@) && c is Some {
                    c->0
                } else {
                    uid
                };
                uid_from(items.drop_first(), u)
            },
            XmlItemView::End { name } => if name == "ncx"@ {
                uid
            } else {
                uid_from(items.drop_first(), uid)
            },
            _ => uid_from(items.drop_first(), uid),
        }
    }
}

/// The first character data after a `docTitle` start tag, else nothing.
pub open spec fn title_from(items: Seq<XmlItemView>, inside: bool) -> Seq<char>
    decreases items.len(),
{
    if items.len() == 0 {
        Seq::<char>::empty()
    } else {
        match items[0] {
            XmlItemView::Start { name, attributes } => title_from(
                items.drop_first(),
                inside || name == "docTitle"@,
            ),
            XmlItemView::Text(t) => if inside {
                t
            } else {
                title_from(items.drop_first(), inside)
            },
            _ => title_from(items.drop_first(), inside),
        }
    }
}

fn uid_of(items: &Vec<XmlItem>) -> (r: String)
    ensures
        r@ == uid_from(item_views(items@), Seq::<char>::empty()),
{
    let ghost iv = item_views(items@);
    let mut uid = String::new();
    assert(iv.subrange(0, iv.len() as int) =~= iv);
    for k in 0..items.len()
        invariant
            iv == item_views(items@),
            uid_from(iv, Seq::<char>::empty()) == uid_from(iv.subrange(k as int, iv.len() as int), uid@),
    {
        proof {
            reveal_strlit("ncx");
        }
        let ghost t = iv.subrange(k as int, iv.len() as int);
        assert(t.drop_first() =~= iv.subrange(k + 1, iv.len() as int));
        assert(t[0] == items@[k as int]@);
        match &items[k] {
            XmlItem::Start { name, attributes } => {
                let n = find_attr(attributes, "name");
                let c = find_attr(attributes, "content");
                if text_is(name, "meta") {
                    match (n, c) {
                        (Some(nv), Some(cv)) => {
                            if text_is(&nv, "dtb:uid") {
                                uid = cv;
                            }
                        },
                        _ => {},
                    }
                }
            },
            XmlItem::End { name } => {
                if text_is(name, "ncx") {
                    return uid;
                }
            },
            _ => {},
        }
    }
    assert(iv.subrange(items.len() as int, iv.len() as int) =~= Seq::<XmlItemView>::empty());
    uid
}

fn title_of(items: &Vec<XmlItem>) -> (r: String)
    ensures
        r@ == title_from(item_views(items@), false),
{
    let ghost iv = item_views(items@);
    let mut inside = false;
    assert(iv.subrange(0, iv.len() as int) =~= iv);
    for k in 0..items.len()
        invariant
            iv == item_views(items@),
            title_from(iv, false) == title_from(iv.subrange(k as int, iv.len() as int), inside),
    {
        let ghost t = iv.subrange(k as int, iv.len() as int);
        assert(t.drop_first() =~= iv.subrange(k + 1, iv.len() as int));
        assert(t[0] == items@[k as int]@);
        match &items[k] {
            XmlItem::Start { name, attributes } => {
                if text_is(name, "docTitle") {
                    inside = true;
                }
            },
            XmlItem::Text(text) => {
                if inside {
                    return text.clone();
                }
            },
            _ => {},
        }
    }
    assert(iv.subrange(items.len() as int, iv.len() as int) =~= Seq::<XmlItemView>::empty());
    String::new()
}

impl TocMeta {
    /// The `dtb:uid` of a `toc.ncx`: the `content` of the `meta` element
    /// named so, or empty. Parse errors end the reading.
    pub fn from_bytes(bytes: Vec<u8>) -> (r: TocMeta)
        ensures
            r.uid@ == uid_from(xml_items(bytes@), Seq::<char>::empty()),
    {
        let items = read_xml(bytes.as_slice());
        TocMeta { uid: uid_of(&items) }
    }
}

impl DocTitle {
    /// The `docTitle` of a `toc.ncx`: the first character data inside it,
    /// or empty.
    pub fn from_bytes(bytes: Vec<u8>) -> (r: DocTitle)
        ensures
            r.title@ == title_from(xml_items(bytes@), false),
    {
        let items = read_xml(bytes.as_slice());
        DocTitle { title: title_of(&items) }
    }
}

impl Toc {
    /// Reads `toc.ncx`: its uid and its title.
    pub fn new(bytes: Vec<u8>) -> (r: Result<Toc, XmlError>)
        ensures
            r matches Ok(t) && t.meta.uid@ == uid_from(xml_items(bytes@), Seq::<char>::empty())
                && t.doc_title.title@ == title_from(xml_items(bytes@), false),
    {
        let items = read_xml(bytes.as_slice());
        let meta = TocMeta { uid: uid_of(&items) };
        let doc_title = DocTitle { title: title_of(&items) };
        Ok(Toc { meta, doc_title })
    }
}

pub struct RootFileView {
    pub full_path: Seq<char>,
    pub media_type: Seq<char>,
}

impl View for RootFile {
    type V = RootFileView;

    open spec fn view(&self) -> RootFileView {
        RootFileView { full_path: self.full_path@, media_type: self.media_type@ }
    }
}

/// The media type of a root file that names none.
pub open spec fn default_media_type() -> Seq<char> {
    "application/oebps-package+xml"@
}

/// The root files: one per `rootfile` start tag, its `full-path` (or empty)
/// and `media-type` (or the package type).
pub open spec fn rootfiles_of(items: Seq<XmlItemView>) -> Seq<RootFileView>
    decreases items.len(),
{
    if items.len() == 0 {
        Seq::<RootFileView>::empty()
    } else {
        let before = rootfiles_of(items.drop_last());
        match items.last() {
            XmlItemView::Start { name, attributes } => if name == "rootfile"@ {
                let m = first_attr(attributes, "media-type"@);
                before.push(
                    RootFileView {
                        full_path: or_empty(first_attr(attributes, "full-path"@)),
                        media_type: if m is Some { m->0 } else { default_media_type() },
                    },
                )
            } else {
                before
            },
            _ => before,
        }
    }
}

impl MetaInfContainer {
    /// Reads `META-INF/container.xml`: its root files. Bytes that are not
    /// UTF-8 are an error; parse errors end the reading.
    pub fn new(container_xml: Vec<u8>) -> (r: Result<MetaInfContainer, XmlError>)
        ensures
            r is Ok <==> valid_utf8(container_xml@),
            r matches Ok(m) ==> m.rootfiles@.map_values(|f: RootFile| f@) == rootfiles_of(
                xml_items(container_xml@),
            ),
    {
        if !is_utf8(container_xml.as_slice()) {
            return Err(XmlError::InvalidUtf8);
        }
        let items = read_xml(container_xml.as_slice());
        let ghost iv = item_views(items@);
        let mut rootfiles: Vec<RootFile> = Vec::new();
        for k in 0..items.len()
            invariant
                iv == item_views(items@),
                rootfiles@.map_values(|f: RootFile| f@) == rootfiles_of(iv.subrange(0, k as int)),
        {
            let ghost q = iv.subrange(0, k + 1);
            assert(q.drop_last() =~= iv.subrange(0, k as int));
            assert(q.last() == items@[k as int]@);
            let ghost r0 = rootfiles@.map_values(|f: RootFile| f@);
            match &items[k] {
                XmlItem::Start { name, attributes } => {
                    if text_is(name, "rootfile") {
                        let media_type = match find_attr(attributes, "media-type") {
                            Some(m) => m,
                            None => "application/oebps-package+xml".to_string(),
                        };
                        let full_path = match find_attr(attributes, "full-path") {
                            Some(p) => p,
                            None => String::new(),
                        };
                        let f = RootFile { full_path, media_type };
                        rootfiles.push(f);
                        assert(rootfiles@.map_values(|f: RootFile| f@) =~= r0.push(f@));
                    }
                },
                _ => {},
            }
        }
        assert(iv.subrange(0, items.len() as int) =~= iv);
        Ok(MetaInfContainer { rootfiles })
    }
}

pub struct MetadataView {
    pub title: Seq<char>,
    pub creator: Seq<char>,
    pub language: Seq<char>,
    pub identifier: Seq<char>,
}

pub struct ManifestItemView {
    pub id: Seq<char>,
    pub href: Seq<char>,
    pub media_type: Seq<char>,
}

impl View for ManifestItem {
    type V = ManifestItemView;

    open spec fn view(&self) -> ManifestItemView {
        ManifestItemView { id: self.id@, href: self.href@, media_type: self.media_type@ }
    }
}

/// What has been read of a package document.
pub struct OpfState {
    pub metadata: MetadataView,
    pub manifest: Seq<ManifestItemView>,
    pub spine: Seq<Seq<char>>,
    pub current: Seq<char>,
    pub in_metadata: bool,
    pub in_manifest: bool,
    pub in_spine: bool,
}

/// The values of the attributes named `idref`, in order.
pub open spec fn idrefs(a: Seq<(Seq<char>, Seq<char>)>) -> Seq<Seq<char>>
    decreases a.len(),
{
    if a.len() == 0 {
        Seq::<Seq<char>>::empty()
    } else if a.last().0 == "idref"@ {
        idrefs(a.drop_last()).push(a.last().1)
    } else {
        idrefs(a.drop_last())
    }
}

/// One event of the package document: the `metadata`, `manifest` and
/// `spine` sections open and close; an `item` in the manifest adds an entry
/// (the last `id`, `href`, `media-type` it gives, or empty); an `itemref` in
/// the spine adds its `idref`s; any other start tag becomes the current
/// element, whose character data in the metadata sets the title, creator,
/// language or identifier.
pub open spec fn opf_step(st: OpfState, item: XmlItemView) -> OpfState {
    match item {
        XmlItemView::Start { name, attributes } => if name == "metadata"@ {
            OpfState { in_metadata: true, ..st }
        } else if name == "manifest"@ {
            OpfState { in_manifest: true, ..st }
        } else if name == "spine"@ {
            OpfState { in_spine: true, ..st }
        } else if name == "item"@ && st.in_manifest {
            OpfState {
                manifest: st.manifest.push(
                    ManifestItemView {
                        id: or_empty(last_attr(attributes, "id"@)),
                        href: or_empty(last_attr(attributes, "href"@)),
                        media_type: or_empty(last_attr(attributes, "media-type"@)),
                    },
                ),
                ..st
            }
        } else if name == "itemref"@ && st.in_spine {
            OpfState { spine: st.spine + idrefs(attributes), ..st }
        } else {
            OpfState { current: name, ..st }
        },
        XmlItemView::End { name } => if name == "metadata"@ {
            OpfState { in_metadata: false, ..st }
        } else if name == "manifest"@ {
            OpfState { in_manifest: false, ..st }
        } else if name == "spine"@ {
            OpfState { in_spine: false, ..st }
        } else {
            st
        },
        XmlItemView::Text(t) => if !st.in_metadata {
            st
        } else if st.current == "title"@ {
            OpfState { metadata: MetadataView { title: t, ..st.metadata }, ..st }
        } else if st.current == "creator"@ {
            OpfState { metadata: MetadataView { creator: t, ..st.metadata }, ..st }
        } else if st.current == "language"@ {
            OpfState { metadata: MetadataView { language: t, ..st.metadata }, ..st }
        } else if st.current == "identifier"@ {
            OpfState { metadata: MetadataView { identifier: t, ..st.metadata }, ..st }
        } else {
            st
        },
        _ => st,
    }
}

/// The package document read from the events on, or the message of the
/// first parse error.
pub open spec fn opf_from(items: Seq<XmlItemView>, st: OpfState) -> Result<OpfState, Seq<char>>
    decreases items.len(),
{
    if items.len() == 0 {
        Ok(st)
    } else {
        match items[0] {
            XmlItemView::Failure(m) => Err(m),
            _ => opf_from(items.drop_first(), opf_step(st, items[0])),
        }
    }
}

pub open spec fn opf_start() -> OpfState {
    OpfState {
        metadata: MetadataView {
            title: Seq::<char>::empty(),
            creator: Seq::<char>::empty(),
            language: Seq::<char>::empty(),
            identifier: Seq::<char>::empty(),
        },
        manifest: Seq::<ManifestItemView>::empty(),
        spine: Seq::<Seq<char>>::empty(),
        current: Seq::<char>::empty(),
        in_metadata: false,
        in_manifest: false,
        in_spine: false,
    }
}

struct OpfReader {
    opf: ContentOpf,
    current: String,
    in_metadata: bool,
    in_manifest: bool,
    in_spine: bool,
}

impl OpfReader {
    spec fn view(&self) -> OpfState {
        OpfState {
            metadata: MetadataView {
                title: self.opf.metadata.title@,
                creator: self.opf.metadata.creator@,
                language: self.opf.metadata.language@,
                identifier: self.opf.metadata.identifier@,
            },
            manifest: self.opf.manifest@.map_values(|m: ManifestItem| m@),
            spine: self.opf.spine@.map_values(|i: SpineItem| i.idref@),
            current: self.current@,
            in_metadata: self.in_metadata,
            in_manifest: self.in_manifest,
            in_spine: self.in_spine,
        }
    }

    fn add_idrefs(&mut self, a: &Vec<(String, String)>)
        ensures
            final(self).view() == (OpfState { spine: old(self).view().spine + idrefs(attr_views(a@)), ..old(self).view() }),
    {
        let ghost s0 = self.view().spine;
        let ghost av = attr_views(a@);
        assert(s0 + idrefs(av.subrange(0, 0)) =~= s0);
        for k in 0..a.len()
            invariant
                av == attr_views(a@),
                self.view() == (OpfState { spine: s0 + idrefs(av.subrange(0, k as int)), ..old(self).view() }),
        {
            let ghost q = av.subrange(0, k + 1);
            assert(q.drop_last() =~= av.subrange(0, k as int));
            assert(q.last() == (a@[k as int].0@, a@[k as int].1@));
            if text_is(&a[k].0, "idref") {
                let ghost sp = self.opf.spine@.map_values(|i: SpineItem| i.idref@);
                let item = SpineItem { idref: a[k].1.clone() };
                self.opf.spine.push(item);
                assert(self.opf.spine@.map_values(|i: SpineItem| i.idref@) =~= sp.push(a@[k as int].1@));
                assert(s0 + idrefs(q) =~= (s0 + idrefs(av.subrange(0, k as int))).push(a@[k as int].1@));
            }
        }
        assert(av.subrange(0, a.len() as int) =~= av);
    }

    fn step(&mut self, item: &XmlItem)
        requires
            !(item@ is Failure),
        ensures
            final(self).view() == opf_step(old(self).view(), item@),
    {
        match item {
            XmlItem::Start { name, attributes } => {
                if text_is(name, "metadata") {
                    self.in_metadata = true;
                } else if text_is(name, "manifest") {
                    self.in_manifest = true;
                } else if text_is(name, "spine") {
                    self.in_spine = true;
                } else if text_is(name, "item") && self.in_manifest {
                    let id = match find_last_attr(attributes, "id") {
                        Some(v) => v,
                        None => String::new(),
                    };
                    let href = match find_last_attr(attributes, "href") {
                        Some(v) => v,
                        None => String::new(),
                    };
                    let media_type = match find_last_attr(attributes, "media-type") {
                        Some(v) => v,
                        None => String::new(),
                    };
                    let ghost m0 = self.opf.manifest@.map_values(|m: ManifestItem| m@);
                    let m = ManifestItem { id, href, media_type };
                    self.opf.manifest.push(m);
                    assert(self.opf.manifest@.map_values(|m: ManifestItem| m@) =~= m0.push(m@));
                } else if text_is(name, "itemref") && self.in_spine {
                    self.add_idrefs(attributes);
                } else {
                    self.current = name.clone();
                }
            },
            XmlItem::End { name } => {
                if text_is(name, "metadata") {
                    self.in_metadata = false;
                } else if text_is(name, "manifest") {
                    self.in_manifest = false;
                } else if text_is(name, "spine") {
                    self.in_spine = false;
                }
            },
            XmlItem::Text(t) => {
                if self.in_metadata {
                    if text_is(&self.current, "title") {
                        self.opf.metadata.title = t.clone();
                    } else if text_is(&self.current, "creator") {
                        self.opf.metadata.creator = t.clone();
                    } else if text_is(&self.current, "language") {
                        self.opf.metadata.language = t.clone();
                    } else if text_is(&self.current, "identifier") {
                        self.opf.metadata.identifier = t.clone();
                    }
                }
            },
            _ => {},
        }
    }
}

pub open spec fn manifest_views(v: Seq<ManifestItem>) -> Seq<ManifestItemView> {
    v.map_values(|m: ManifestItem| m@)
}

pub open spec fn spine_views(v: Seq<SpineItem>) -> Seq<Seq<char>> {
    v.map_values(|i: SpineItem| i.idref@)
}

impl ContentOpf {
    /// Reads the package document: its metadata, manifest and spine. Bytes
    /// that are not UTF-8, and malformed XML, are errors.
    pub fn new(bytes: Vec<u8>) -> (r: Result<ContentOpf, XmlError>)
        ensures
            !valid_utf8(bytes@) ==> r is Err,
            valid_utf8(bytes@) ==> (r is Ok <==> opf_from(xml_items(bytes@), opf_start()) is Ok),
            r matches Ok(c) ==> opf_from(xml_items(bytes@), opf_start()) matches Ok(st) && st.metadata
                == (MetadataView {
                title: c.metadata.title@,
                creator: c.metadata.creator@,
                language: c.metadata.language@,
                identifier: c.metadata.identifier@,
            }) && st.manifest == manifest_views(c.manifest@) && st.spine == spine_views(c.spine@),
    {
        if !is_utf8(bytes.as_slice()) {
            return Err(XmlError::InvalidUtf8);
        }
        let items = read_xml(bytes.as_slice());
        let ghost iv = item_views(items@);
        let mut rd = OpfReader {
            opf: ContentOpf {
                metadata: Metadata {
                    title: String::new(),
                    creator: String::new(),
                    language: String::new(),
                    identifier: String::new(),
                },
                manifest: Vec::new(),
                spine: Vec::new(),
            },
            current: String::new(),
            in_metadata: false,
            in_manifest: false,
            in_spine: false,
        };
        assert(rd.view().manifest =~= Seq::<ManifestItemView>::empty());
        assert(rd.view().spine =~= Seq::<Seq<char>>::empty());
        assert(iv.subrange(0, iv.len() as int) =~= iv);
        for k in 0..items.len()
            invariant
                iv == item_views(items@),
                iv == xml_items(bytes@),
                valid_utf8(bytes@),
                opf_from(iv, opf_start()) == opf_from(iv.subrange(k as int, iv.len() as int), rd.view()),
        {
            let ghost t = iv.subrange(k as int, iv.len() as int);
            assert(t.drop_first() =~= iv.subrange(k + 1, iv.len() as int));
            assert(t[0] == items@[k as int]@);
            match &items[k] {
                XmlItem::Failure(m) => {
                    assert(t[0] == XmlItemView::Failure(m@));
                    assert(opf_from(t, rd.view()) == Err::<OpfState, Seq<char>>(m@));
                    return Err(XmlError::Malformed(m.clone()));
                },
                _ => {
                    rd.step(&items[k]);
                },
            }
        }
        assert(iv.subrange(items.len() as int, iv.len() as int) =~= Seq::<XmlItemView>::empty());
        Ok(rd.opf)
    }
}

} // verus!
