//! Preparation of a downloaded EPUB: metadata, styles, cover, repaired
//! chapters, and a well-formed archive.

use vstd::prelude::*;
use vstd::string::StrSliceExecFns;
use vstd::utf8::encode_utf8;
use xmltree::Error as EmitterError;
use xmltree::ParseError as XmlParseError;

use crate::archive::{
    archive_holds, entry_names, files_fit, from_source, lemma_copied_from_source, COMPRESSION_LEVEL, initial_contents, lemma_finished_archive, lemma_writable,
    merge_entries, names_fit, sound_source, Archive,
};
use crate::book::BookMetadata;
use crate::cover::{add_cover, covered, lowercase, opt_bytes};
use crate::css::{strip_font_face_rules, strip_font_face_rules_spec};
use crate::opf::{
    ensure_manifest_item, ensured_item, find_descendant, find_descendant_spec, is_epub3,
    is_font_item, is_font_item_spec, is_utc_timestamp, retain_children, retained, update_metadata,
    updated_package, Pick, Selector, STYLESHEET, STYLE_HREF,
};
use crate::paths::{manifest_path, manifest_path_spec};
use crate::text::{chars_of, lower_ascii, string_views};
use crate::xhtml::{normalize, normalized_xhtml};
use crate::zipfile::{
    read_back, Storage, zip_archive_members, zip_bytes, zip_entry_opens, zip_opens, zip_written, ArchiveWriter,
};
use crate::xml::{
    attr_of, attribute, child_index, element_at, element_position, element_view, is_named,
    lemma_element_position, lemma_node_views, node_view, parse_xml, parsed_xml, put_element,
    replace_child, take_element, with_children, write_xml, written_xml, ElementView, NodeView,
    XmlElement, XmlNode,
};

verus! {

#[verifier::external_type_specification]
#[verifier::external_body]
pub struct ExXmlParseError(XmlParseError);

#[verifier::external_type_specification]
#[verifier::external_body]
pub struct ExXmlWriteError(EmitterError);

/// What can go wrong while preparing an EPUB.
#[derive(Debug)]
pub enum Error {
    InvalidArchive(String),
    MissingOpf,
    MissingPackage,
    InvalidXhtml,
    Time(String),
    Io(std::io::Error),
    Zip(zip::result::ZipError),
    XmlParse(XmlParseError),
    XmlWrite(EmitterError),
}


// ---------------------------------------------------------------------------
// Finding the package document
// ---------------------------------------------------------------------------

pub open spec fn container_path() -> Seq<char> {
    "META-INF/container.xml"@
}

/// The package document that `META-INF/container.xml` names, if the
/// archive has it.
pub open spec fn container_opf(contents: Map<Seq<char>, Seq<u8>>) -> Option<Seq<char>> {
    if !contents.contains_key(container_path()) {
        None
    } else {
        match parsed_xml(contents[container_path()]) {
            None => None,
            Some(container) => match find_descendant_spec(container, "rootfile"@) {
                None => None,
                Some(rootfile) => match attr_of(rootfile, "full-path"@) {
                    Some(path) => if contents.contains_key(path) {
                        Some(path)
                    } else {
                        None
                    },
                    None => None,
                },
            },
        }
    }
}

/// Whether `name` ends in `.opf`, in any ASCII case.
pub open spec fn names_opf(name: Seq<char>) -> bool {
    name.len() >= 4 && lowercase(name).skip(name.len() - 4) == ".opf"@
}

/// The first of `names` from `i` on that ends in `.opf`.
pub open spec fn first_opf(names: Seq<Seq<char>>, i: int) -> Option<Seq<char>>
    decreases names.len() - i,
{
    if i < 0 || i >= names.len() {
        None
    } else if names_opf(names[i]) {
        Some(names[i])
    } else {
        first_opf(names, i + 1)
    }
}

/// Where the package document is: as the container names it, else the
/// first file (in archive order) that ends in `.opf`.
pub open spec fn opf_location(contents: Map<Seq<char>, Seq<u8>>, listed: Seq<Seq<char>>) -> Option<
    Seq<char>,
> {
    match container_opf(contents) {
        Some(path) => Some(path),
        None => first_opf(listed, 0),
    }
}

fn ends_with_opf(name: &str) -> (r: bool)
    ensures
        r == names_opf(name@),
{
    let v = chars_of(name);
    if v.len() < 4 {
        return false;
    }
    let start = v.len() - 4;
    let r = lower_ascii(v[start]) == '.' && lower_ascii(v[start + 1]) == 'o' && lower_ascii(
        v[start + 2],
    ) == 'p' && lower_ascii(v[start + 3]) == 'f';
    proof {
        reveal_strlit(".opf");
        let tail = lowercase(v@).skip(start as int);
        if r {
            assert(tail =~= ".opf"@);
        } else {
            if tail == ".opf"@ {
                assert(tail[0] == '.' && tail[1] == 'o' && tail[2] == 'p' && tail[3] == 'f');
            }
        }
    }
    r
}

/// The package document named by the container, if the archive has it.
fn opf_from_container(archive: &mut Archive) -> (r: Result<Option<String>, Error>)
    requires
        old(archive).wf(),
    ensures
        final(archive).wf(),
        final(archive).sound() == old(archive).sound(),
        final(archive).bytes() == old(archive).bytes(),
        final(archive).contents() == old(archive).contents(),
        final(archive).listed() == old(archive).listed(),
        match r {
            Ok(found) => opt_string(found) == container_opf(old(archive).contents()),
            Err(e) => (e is Zip || e is Io) && !old(archive).sound(),
        },
{
    let container = match archive.get("META-INF/container.xml")? {
        Some(c) => c,
        None => {
            return Ok(None);
        },
    };
    let tree = match parse_xml(container.as_slice()) {
        Ok(t) => t,
        Err(_) => {
            return Ok(None);
        },
    };
    let rootfile = match find_descendant(&tree, "rootfile") {
        Some(e) => e,
        None => {
            return Ok(None);
        },
    };
    match attribute(rootfile, "full-path") {
        Some(path) => if archive.contains(path.as_str()) {
            Ok(Some(path.clone()))
        } else {
            Ok(None)
        },
        None => Ok(None),
    }
}

pub open spec fn opt_string(s: Option<String>) -> Option<Seq<char>> {
    match s {
        Some(v) => Some(v@),
        None => None,
    }
}

/// The name of the package document: as the container names it, else the
/// first file that ends in `.opf`.
pub fn find_opf(archive: &mut Archive) -> (r: Result<String, Error>)
    requires
        old(archive).wf(),
    ensures
        final(archive).wf(),
        final(archive).sound() == old(archive).sound(),
        final(archive).bytes() == old(archive).bytes(),
        final(archive).contents() == old(archive).contents(),
        final(archive).listed() == old(archive).listed(),
        match r {
            Ok(name) => opf_location(old(archive).contents(), old(archive).listed()) == Some(name@),
            Err(e) => (e is MissingOpf && opf_location(
                old(archive).contents(),
                old(archive).listed(),
            ) is None) || ((e is Zip || e is Io) && !old(archive).sound()),
        },
{
    if let Some(path) = opf_from_container(archive)? {
        return Ok(path);
    }
    let names = archive.names();
    let ghost listed = string_views(names@);
    let mut i: usize = 0;
    while i < names.len()
        invariant
            listed == string_views(names@),
            listed == archive.listed(),
            archive.wf(),
            archive.sound() == old(archive).sound(),
            archive.bytes() == old(archive).bytes(),
            archive.contents() == old(archive).contents(),
            archive.listed() == old(archive).listed(),
            container_opf(old(archive).contents()) is None,
            0 <= i <= names@.len(),
            first_opf(listed, 0) == first_opf(listed, i as int),
        decreases names@.len() - i,
    {
        if ends_with_opf(names[i].as_str()) {
            return Ok(names[i].clone());
        }
        i = i + 1;
    }
    Err(Error::MissingOpf)
}

// ---------------------------------------------------------------------------
// The system style sheet
// ---------------------------------------------------------------------------

/// Whether `e` is an item of fonts (`font`), or else one of `media`.
pub open spec fn item_matches(e: ElementView, font: bool, media: Seq<char>) -> bool {
    &&& e.name == "item"@
    &&& if font {
        is_font_item_spec(e)
    } else {
        attr_of(e, "media-type"@) == Some(media)
    }
}

/// The `href`s of the items among `children` that match, in order.
pub open spec fn item_hrefs(children: Seq<NodeView>, font: bool, media: Seq<char>) -> Seq<Seq<char>>
    decreases children.len(),
{
    if children.len() == 0 {
        seq![]
    } else {
        let rest = item_hrefs(children.drop_last(), font, media);
        let node = children.last();
        if node is Element && item_matches(node->Element_0, font, media) && attr_of(
            node->Element_0,
            "href"@,
        ) is Some {
            rest.push(attr_of(node->Element_0, "href"@)->0)
        } else {
            rest
        }
    }
}

/// The `href`s of the matching items of `manifest`.
fn hrefs_of(manifest: &XmlElement, font: bool, media: &str) -> (r: Vec<String>)
    ensures
        string_views(r@) == item_hrefs(element_view(*manifest).children, font, media@),
{
    let ghost children = element_view(*manifest).children;
    proof {
        lemma_node_views(manifest.children@);
    }
    let mut hrefs: Vec<String> = Vec::new();
    let mut i: usize = 0;
    while i < manifest.children.len()
        invariant
            children == element_view(*manifest).children,
            children.len() == manifest.children@.len(),
            forall|k: int| 0 <= k < manifest.children@.len() ==> #[trigger] children[k] == node_view(
                manifest.children@[k],
            ),
            0 <= i <= manifest.children@.len(),
            string_views(hrefs@) == item_hrefs(children.take(i as int), font, media@),
        decreases manifest.children@.len() - i,
    {
        assert(children.take(i + 1).drop_last() =~= children.take(i as int));
        assert(children.take(i + 1).last() == children[i as int]);
        if let XmlNode::Element(e) = &manifest.children[i] {
            let matches = str_eq_name(e, "item") && if font {
                is_font_item(e)
            } else {
                match attribute(e, "media-type") {
                    Some(m) => crate::text::str_eq(m.as_str(), media),
                    None => false,
                }
            };
            if matches {
                if let Some(href) = attribute(e, "href") {
                    let ghost before = string_views(hrefs@);
                    hrefs.push(href.clone());
                    assert(string_views(hrefs@) =~= before.push(href@));
                }
            }
        }
        i = i + 1;
    }
    assert(children.take(children.len() as int) =~= children);
    hrefs
}

fn str_eq_name(e: &XmlElement, name: &str) -> (r: bool)
    ensures
        r == (e.name@ == name@),
{
    crate::text::str_eq(e.name.as_str(), name)
}

/// The files with those that `hrefs` name removed, one after the other.
pub open spec fn without_files(contents: Map<Seq<char>, Seq<u8>>, opf_name: Seq<char>, hrefs: Seq<Seq<char>>) -> Map<
    Seq<char>,
    Seq<u8>,
>
    decreases hrefs.len(),
{
    if hrefs.len() == 0 {
        contents
    } else {
        without_files(contents, opf_name, hrefs.drop_last()).remove(
            manifest_path_spec(opf_name, hrefs.last()),
        )
    }
}

/// The archive paths that `hrefs` name.
pub open spec fn named_paths(opf_name: Seq<char>, hrefs: Seq<Seq<char>>) -> Seq<Seq<char>> {
    hrefs.map_values(|href: Seq<char>| manifest_path_spec(opf_name, href))
}

/// Law: once the files that `hrefs` name are removed, none of them is left,
/// and every other file stays as it was.
pub proof fn lemma_files_removed(contents: Map<Seq<char>, Seq<u8>>, opf_name: Seq<char>, hrefs: Seq<Seq<char>>)
    ensures
        forall|name: Seq<char>|
            named_paths(opf_name, hrefs).contains(name) ==> !#[trigger] without_files(
                contents,
                opf_name,
                hrefs,
            ).contains_key(name),
        forall|name: Seq<char>|
            !named_paths(opf_name, hrefs).contains(name) ==> (#[trigger] without_files(
                contents,
                opf_name,
                hrefs,
            ).contains_key(name) == contents.contains_key(name)) && (contents.contains_key(name)
                ==> without_files(contents, opf_name, hrefs)[name] == contents[name]),
    decreases hrefs.len(),
{
    if hrefs.len() > 0 {
        let init = hrefs.drop_last();
        lemma_files_removed(contents, opf_name, init);
        let paths = named_paths(opf_name, hrefs);
        let before = named_paths(opf_name, init);
        assert(paths =~= before.push(manifest_path_spec(opf_name, hrefs.last())));
        let earlier = without_files(contents, opf_name, init);
        assert(without_files(contents, opf_name, hrefs) == earlier.remove(
            manifest_path_spec(opf_name, hrefs.last()),
        ));
        assert forall|name: Seq<char>| paths.contains(name) implies !#[trigger] without_files(
            contents,
            opf_name,
            hrefs,
        ).contains_key(name) by {
            if name != manifest_path_spec(opf_name, hrefs.last()) {
                let k = choose|k: int| 0 <= k < paths.len() && paths[k] == name;
                assert(before[k] == name);
                assert(!earlier.contains_key(name));
            }
        }
        assert forall|name: Seq<char>| !paths.contains(name) implies (#[trigger] without_files(
            contents,
            opf_name,
            hrefs,
        ).contains_key(name) == contents.contains_key(name)) && (contents.contains_key(name)
            ==> without_files(contents, opf_name, hrefs)[name] == contents[name]) by {
            assert(name != paths[paths.len() - 1]);
            if before.contains(name) {
                let k = choose|k: int| 0 <= k < before.len() && before[k] == name;
                assert(paths[k] == name);
            }
            assert(earlier.contains_key(name) == contents.contains_key(name));
        }
    }
}

/// The files with the `@font-face` rules taken out of the style sheets that
/// `hrefs` name, one after the other.
pub open spec fn sheets_stripped(contents: Map<Seq<char>, Seq<u8>>, opf_name: Seq<char>, hrefs: Seq<Seq<char>>) -> Map<
    Seq<char>,
    Seq<u8>,
>
    decreases hrefs.len(),
{
    if hrefs.len() == 0 {
        contents
    } else {
        let before = sheets_stripped(contents, opf_name, hrefs.drop_last());
        let path = manifest_path_spec(opf_name, hrefs.last());
        if before.contains_key(path) && strip_font_face_rules_spec(before[path]) != before[path] {
            before.insert(path, strip_font_face_rules_spec(before[path]))
        } else {
            before
        }
    }
}

/// The files with the chapters that `hrefs` name repaired into XHTML that
/// links to the style sheet at `style_path`, one after the other; none when
/// one of them cannot be.
pub open spec fn chapters_normalized(
    contents: Map<Seq<char>, Seq<u8>>,
    opf_name: Seq<char>,
    hrefs: Seq<Seq<char>>,
    style_path: Seq<char>,
) -> Option<Map<Seq<char>, Seq<u8>>>
    decreases hrefs.len(),
{
    if hrefs.len() == 0 {
        Some(contents)
    } else {
        match chapters_normalized(contents, opf_name, hrefs.drop_last(), style_path) {
            None => None,
            Some(before) => {
                let path = manifest_path_spec(opf_name, hrefs.last());
                if before.contains_key(path) {
                    match normalized_xhtml(before[path], path, style_path) {
                        Some(bytes) => Some(before.insert(path, bytes)),
                        None => None,
                    }
                } else {
                    Some(before)
                }
            },
        }
    }
}

proof fn lemma_chapters_fail(
    contents: Map<Seq<char>, Seq<u8>>,
    opf_name: Seq<char>,
    hrefs: Seq<Seq<char>>,
    style_path: Seq<char>,
    k: int,
)
    requires
        0 <= k <= hrefs.len(),
        chapters_normalized(contents, opf_name, hrefs.take(k), style_path) is None,
    ensures
        chapters_normalized(contents, opf_name, hrefs, style_path) is None,
    decreases hrefs.len() - k,
{
    if k < hrefs.len() {
        assert(hrefs.take(k + 1).drop_last() =~= hrefs.take(k));
        lemma_chapters_fail(contents, opf_name, hrefs, style_path, k + 1);
    } else {
        assert(hrefs.take(k) =~= hrefs);
    }
}

fn remove_files(archive: &mut Archive, opf_name: &str, hrefs: &Vec<String>)
    requires
        old(archive).wf(),
    ensures
        final(archive).wf(),
        final(archive).sound() == old(archive).sound(),
        final(archive).bytes() == old(archive).bytes(),
        final(archive).contents() == without_files(
            old(archive).contents(),
            opf_name@,
            string_views(hrefs@),
        ),
{
    let ghost all = string_views(hrefs@);
    let ghost start = archive.contents();
    let mut i: usize = 0;
    while i < hrefs.len()
        invariant
            all == string_views(hrefs@),
            start == old(archive).contents(),
            0 <= i <= hrefs@.len(),
            archive.wf(),
            archive.sound() == old(archive).sound(),
            archive.bytes() == old(archive).bytes(),
            archive.contents() == without_files(start, opf_name@, all.take(i as int)),
        decreases hrefs@.len() - i,
    {
        assert(all.take(i + 1).drop_last() =~= all.take(i as int));
        let path = manifest_path(opf_name, hrefs[i].as_str());
        archive.remove(path.as_str());
        i = i + 1;
    }
    assert(all.take(hrefs@.len() as int) =~= all);
}

fn strip_sheets(archive: &mut Archive, opf_name: &str, hrefs: &Vec<String>) -> (r: Result<(), Error>)
    requires
        old(archive).wf(),
    ensures
        final(archive).wf(),
        final(archive).sound() == old(archive).sound(),
        final(archive).bytes() == old(archive).bytes(),
        match r {
            Ok(()) => final(archive).contents() == sheets_stripped(
                old(archive).contents(),
                opf_name@,
                string_views(hrefs@),
            ),
            Err(e) => (e is Zip || e is Io) && !old(archive).sound(),
        },
{
    let ghost all = string_views(hrefs@);
    let ghost start = archive.contents();
    let mut i: usize = 0;
    while i < hrefs.len()
        invariant
            all == string_views(hrefs@),
            start == old(archive).contents(),
            0 <= i <= hrefs@.len(),
            archive.wf(),
            archive.sound() == old(archive).sound(),
            archive.bytes() == old(archive).bytes(),
            archive.contents() == sheets_stripped(start, opf_name@, all.take(i as int)),
        decreases hrefs@.len() - i,
    {
        assert(all.take(i + 1).drop_last() =~= all.take(i as int));
        let path = manifest_path(opf_name, hrefs[i].as_str());
        if let Some(content) = archive.get(path.as_str())? {
            let without_fonts = strip_font_face_rules(content.as_slice());
            if !same_bytes(&without_fonts, &content) {
                archive.set(path, without_fonts);
            }
        }
        i = i + 1;
    }
    assert(all.take(hrefs@.len() as int) =~= all);
    Ok(())
}

/// Whether two byte strings are equal.
fn same_bytes(a: &Vec<u8>, b: &Vec<u8>) -> (r: bool)
    ensures
        r == (a@ == b@),
{
    if a.len() != b.len() {
        return false;
    }
    let mut i: usize = 0;
    while i < a.len()
        invariant
            a@.len() == b@.len(),
            0 <= i <= a@.len(),
            forall|k: int| 0 <= k < i ==> a@[k] == b@[k],
        decreases a@.len() - i,
    {
        if a[i] != b[i] {
            return false;
        }
        i = i + 1;
    }
    assert(a@ =~= b@);
    true
}

fn normalize_chapters(
    archive: &mut Archive,
    opf_name: &str,
    hrefs: &Vec<String>,
    style_path: &str,
) -> (r: Result<(), Error>)
    requires
        old(archive).wf(),
    ensures
        final(archive).wf(),
        final(archive).sound() == old(archive).sound(),
        final(archive).bytes() == old(archive).bytes(),
        match r {
            Ok(()) => chapters_normalized(
                old(archive).contents(),
                opf_name@,
                string_views(hrefs@),
                style_path@,
            ) == Some(final(archive).contents()),
            Err(e) => (e is InvalidXhtml && chapters_normalized(
                old(archive).contents(),
                opf_name@,
                string_views(hrefs@),
                style_path@,
            ) is None) || ((e is Zip || e is Io) && !old(archive).sound()),
        },
{
    let ghost all = string_views(hrefs@);
    let ghost start = archive.contents();
    let mut i: usize = 0;
    while i < hrefs.len()
        invariant
            all == string_views(hrefs@),
            start == old(archive).contents(),
            0 <= i <= hrefs@.len(),
            archive.wf(),
            archive.sound() == old(archive).sound(),
            archive.bytes() == old(archive).bytes(),
            chapters_normalized(start, opf_name@, all.take(i as int), style_path@) == Some(
                archive.contents(),
            ),
        decreases hrefs@.len() - i,
    {
        assert(all.take(i + 1).drop_last() =~= all.take(i as int));
        let path = manifest_path(opf_name, hrefs[i].as_str());
        if let Some(content) = archive.get(path.as_str())? {
            let normalized = match normalize(content.as_slice(), path.as_str(), style_path) {
                Ok(bytes) => bytes,
                Err(e) => {
                    proof {
                        lemma_chapters_fail(start, opf_name@, all, style_path@, i + 1);
                    }
                    return Err(e);
                },
            };
            archive.set(path, normalized);
        }
        i = i + 1;
    }
    assert(all.take(hrefs@.len() as int) =~= all);
    Ok(())
}

/// The package and files once the system style sheet is in place: font
/// items left out of the manifest and their files removed, `@font-face`
/// rules taken out of the book's style sheets, the system style sheet
/// listed and stored, and every chapter repaired into XHTML that links to
/// it. Fails when the package has no manifest or a chapter cannot be
/// repaired.
pub open spec fn styled(package: ElementView, contents: Map<Seq<char>, Seq<u8>>, opf_name: Seq<char>) -> Result<
    (ElementView, Map<Seq<char>, Seq<u8>>),
    Failure,
> {
    match element_position(package.children, "manifest"@, 0) {
        None => Err(Failure::MissingPackage),
        Some(ni) => {
            let manifest = element_at(package, ni);
            let fonts = item_hrefs(manifest.children, true, seq![]);
            let sheets = item_hrefs(manifest.children, false, "text/css"@);
            let (listed, _) = ensured_item(
                with_children(manifest, retained(manifest.children, Pick::FontItem)),
                "yaebook-system-style"@,
                STYLE_HREF@,
                "text/css"@,
            );
            let chapters = item_hrefs(listed.children, false, "application/xhtml+xml"@);
            let style_path = manifest_path_spec(opf_name, STYLE_HREF@);
            let files = sheets_stripped(without_files(contents, opf_name, fonts), opf_name, sheets).insert(
                style_path,
                encode_utf8(STYLESHEET@),
            );
            match chapters_normalized(files, opf_name, chapters, style_path) {
                Some(done) => Ok((replace_child(package, ni, listed), done)),
                None => Err(Failure::InvalidXhtml),
            }
        },
    }
}

/// What can go wrong in preparing an EPUB, apart from reading the source
/// archive and the clock.
pub enum Failure {
    MissingOpf,
    MissingPackage,
    InvalidXhtml,
    XmlParse,
    XmlWrite,
}

/// Lists and stores the system style sheet, drops the fonts, and repairs
/// the chapters.
pub fn add_stylesheet(archive: &mut Archive, opf_name: &str, package: &mut XmlElement) -> (r: Result<(), Error>)
    requires
        old(archive).wf(),
    ensures
        final(archive).wf(),
        final(archive).sound() == old(archive).sound(),
        final(archive).bytes() == old(archive).bytes(),
        match r {
            Ok(()) => styled(element_view(*old(package)), old(archive).contents(), opf_name@) == Ok::<
                (ElementView, Map<Seq<char>, Seq<u8>>),
                Failure,
            >((element_view(*final(package)), final(archive).contents())),
            Err(e) => (e is MissingPackage && styled(
                element_view(*old(package)),
                old(archive).contents(),
                opf_name@,
            ) == Err::<(ElementView, Map<Seq<char>, Seq<u8>>), Failure>(Failure::MissingPackage))
                || (e is InvalidXhtml && styled(
                element_view(*old(package)),
                old(archive).contents(),
                opf_name@,
            ) == Err::<(ElementView, Map<Seq<char>, Seq<u8>>), Failure>(Failure::InvalidXhtml))
                || ((e is Zip || e is Io) && !old(archive).sound()),
        },
{
    let ghost p0 = element_view(*package);
    let style_path = manifest_path(opf_name, STYLE_HREF);
    proof {
        lemma_node_views(package.children@);
        lemma_element_position(p0.children, "manifest"@, 0);
    }
    let ni = match child_index(package, "manifest") {
        Some(k) => k,
        None => {
            return Err(Error::MissingPackage);
        },
    };
    let mut manifest = take_element(package, ni);
    let ghost m0 = element_view(manifest);
    let font_hrefs = hrefs_of(&manifest, true, "");
    proof {
        reveal_strlit("");
        assert(""@ =~= Seq::<char>::empty());
    }
    let css_hrefs = hrefs_of(&manifest, false, "text/css");
    retain_children(&mut manifest, &Selector::FontItem);
    ensure_manifest_item(&mut manifest, "yaebook-system-style", STYLE_HREF, "text/css");
    let xhtml_hrefs = hrefs_of(&manifest, false, "application/xhtml+xml");
    let ghost listed = element_view(manifest);
    proof {
        lemma_node_views(package.children@);
    }
    put_element(package, ni, manifest);
    assert(element_view(*package).children =~= p0.children.update(ni as int, NodeView::Element(listed)));
    remove_files(archive, opf_name, &font_hrefs);
    strip_sheets(archive, opf_name, &css_hrefs)?;
    archive.set(style_path.clone(), STYLESHEET.as_bytes_vec());
    normalize_chapters(archive, opf_name, &xhtml_hrefs, style_path.as_str())?;
    Ok(())
}


// ---------------------------------------------------------------------------
// Preparing the book
// ---------------------------------------------------------------------------

/// The failure that an error stands for, if it is one of the library's own.
pub open spec fn failure_of(e: Error) -> Option<Failure> {
    match e {
        Error::MissingOpf => Some(Failure::MissingOpf),
        Error::MissingPackage => Some(Failure::MissingPackage),
        Error::InvalidXhtml => Some(Failure::InvalidXhtml),
        Error::XmlParse(_) => Some(Failure::XmlParse),
        Error::XmlWrite(_) => Some(Failure::XmlWrite),
        _ => None,
    }
}

/// Whether the package document is found and is one of EPUB 3, the only
/// case in which the clock is read.
pub open spec fn epub3_found(contents: Map<Seq<char>, Seq<u8>>, listed: Seq<Seq<char>>) -> bool {
    match package_found(contents, listed) {
        Ok((_, package)) => is_epub3(package),
        Err(_) => false,
    }
}

/// The name of the package document and its tree, or what went wrong in
/// finding and reading it.
pub open spec fn package_found(contents: Map<Seq<char>, Seq<u8>>, listed: Seq<Seq<char>>) -> Result<
    (Seq<char>, ElementView),
    Failure,
> {
    match opf_location(contents, listed) {
        None => Err(Failure::MissingOpf),
        Some(opf) => if !contents.contains_key(opf) {
            Err(Failure::MissingOpf)
        } else {
            match parsed_xml(contents[opf]) {
                None => Err(Failure::XmlParse),
                Some(package) => if package.name != "package"@ || element_position(
                    package.children,
                    "manifest"@,
                    0,
                ) is None {
                    Err(Failure::MissingPackage)
                } else {
                    Ok((opf, package))
                },
            }
        },
    }
}

/// The files of the book once it is prepared with `values` and `cover`, the
/// time of modification being `modified` (for EPUB 3): the package document
/// found, read, given the metadata, the system style sheet and the cover,
/// and written back; or what went wrong.
pub open spec fn prepared(
    contents: Map<Seq<char>, Seq<u8>>,
    listed: Seq<Seq<char>>,
    values: BookMetadata,
    cover: Option<Seq<u8>>,
    modified: Seq<char>,
) -> Result<Map<Seq<char>, Seq<u8>>, Failure> {
    match package_found(contents, listed) {
        Err(f) => Err(f),
        Ok((opf, package)) => {
            let described = updated_package(
                package,
                values,
                if is_epub3(package) {
                    Some(modified)
                } else {
                    None
                },
            );
            match styled(described, contents, opf) {
                Err(f) => Err(f),
                Ok((styled_package, styled_files)) => match covered(
                    styled_package,
                    styled_files,
                    opf,
                    cover,
                ) {
                    None => Err(Failure::MissingPackage),
                    Some((final_package, files)) => match written_xml(final_package) {
                        None => Err(Failure::XmlWrite),
                        Some(bytes) => Ok(files.insert(opf, bytes)),
                    },
                },
            }
        },
    }
}

/// A time of the right shape, for where none is read.
pub open spec fn epoch() -> Seq<char> {
    "1970-01-01T00:00:00Z"@
}

pub proof fn lemma_epoch_is_timestamp()
    ensures
        is_utc_timestamp(epoch()),
{
    reveal_strlit("1970-01-01T00:00:00Z");
    let t = epoch();
    assert(t.len() == 20);
    assert forall|i: int|
        0 <= i < 20 && i != 4 && i != 7 && i != 10 && i != 13 && i != 16 && i != 19 implies '0'
            <= #[trigger] t[i] <= '9' by {
        if i == 0 {
        } else if i == 1 {
        } else if i == 2 {
        } else if i == 3 {
        } else if i == 5 {
        } else if i == 6 {
        } else if i == 8 {
        } else if i == 9 {
        } else if i == 11 {
        } else if i == 12 {
        } else if i == 14 {
        } else if i == 15 {
        } else if i == 17 {
        } else {
            assert(i == 18);
        }
    }
}

/// Reads the package document, checks it, and gives it with its name.
fn read_package(archive: &mut Archive) -> (r: Result<(String, XmlElement), Error>)
    requires
        old(archive).wf(),
    ensures
        final(archive).wf(),
        final(archive).sound() == old(archive).sound(),
        final(archive).bytes() == old(archive).bytes(),
        final(archive).contents() == old(archive).contents(),
        final(archive).listed() == old(archive).listed(),
        match r {
            Ok((name, package)) => package_found(old(archive).contents(), old(archive).listed())
                == Ok::<(Seq<char>, ElementView), Failure>((name@, element_view(package))),
            Err(e) => ((e is Zip || e is Io) && !old(archive).sound()) || (failure_of(e) is Some && package_found(
                old(archive).contents(),
                old(archive).listed(),
            ) == Err::<(Seq<char>, ElementView), Failure>(failure_of(e)->0)),
        },
{
    let opf_name = find_opf(archive)?;
    let source = match archive.get(opf_name.as_str())? {
        Some(s) => s,
        None => {
            return Err(Error::MissingOpf);
        },
    };
    let package = parse_xml(source.as_slice())?;
    if !crate::text::str_eq(package.name.as_str(), "package") || child_index(&package, "manifest").is_none() {
        return Err(Error::MissingPackage);
    }
    Ok((opf_name, package))
}

/// Prepares the book in `archive`: its metadata from `values`, the system
/// style sheet, fonts dropped, chapters repaired, and the cover (`cover`, or
/// the one the book has). `report` is told of each stage as it begins.
pub fn prepare(
    archive: &mut Archive,
    values: &BookMetadata,
    cover: Option<&[u8]>,
    report: impl Fn(&str),
) -> (r: Result<(), Error>)
    requires
        old(archive).wf(),
        forall|message: &str| call_requires(report, (message,)),
    ensures
        final(archive).wf(),
        final(archive).sound() == old(archive).sound(),
        final(archive).bytes() == old(archive).bytes(),
        match r {
            Ok(()) => exists|t: Seq<char>|
                is_utc_timestamp(t) && prepared(
                    old(archive).contents(),
                    old(archive).listed(),
                    *values,
                    opt_bytes(cover),
                    t,
                ) == Ok::<Map<Seq<char>, Seq<u8>>, Failure>(final(archive).contents()),
            Err(e) => ((e is Zip || e is Io) && !old(archive).sound()) || (e is Time && epub3_found(
                old(archive).contents(),
                old(archive).listed(),
            )) || (failure_of(e) is Some && exists|
                t: Seq<char>,
            |
                is_utc_timestamp(t) && prepared(
                    old(archive).contents(),
                    old(archive).listed(),
                    *values,
                    opt_bytes(cover),
                    t,
                ) == Err::<Map<Seq<char>, Seq<u8>>, Failure>(failure_of(e)->0)),
        },
{
    let ghost c0 = archive.contents();
    let ghost l0 = archive.listed();
    proof {
        lemma_epoch_is_timestamp();
    }
    let (opf_name, mut package) = match read_package(archive) {
        Ok(found) => found,
        Err(e) => {
            assert(prepared(c0, l0, *values, opt_bytes(cover), epoch()) == Err::<
                Map<Seq<char>, Seq<u8>>,
                Failure,
            >(failure_of(e)->0) || e is Zip || e is Io);
            return Err(e);
        },
    };
    let ghost p0 = element_view(package);
    report("Updating metadata…");
    update_metadata(&mut package, values)?;
    let ghost t: Seq<char> = if is_epub3(p0) {
        choose|t: Seq<char>|
            is_utc_timestamp(t) && element_view(package) == updated_package(p0, *values, Some(t))
    } else {
        epoch()
    };
    assert(is_utc_timestamp(t));
    assert(element_view(package) == updated_package(
        p0,
        *values,
        if is_epub3(p0) {
            Some(t)
        } else {
            None
        },
    ));
    let ghost p1 = element_view(package);
    report("Adding system styles…");
    match add_stylesheet(archive, opf_name.as_str(), &mut package) {
        Ok(()) => {},
        Err(e) => {
            assert(prepared(c0, l0, *values, opt_bytes(cover), t) == Err::<
                Map<Seq<char>, Seq<u8>>,
                Failure,
            >(failure_of(e)->0) || e is Zip || e is Io);
            return Err(e);
        },
    }
    let ghost p2 = element_view(package);
    let ghost c2 = archive.contents();
    report("Adding cover…");
    match add_cover(archive, opf_name.as_str(), &mut package, cover) {
        Ok(()) => {},
        Err(e) => {
            assert(prepared(c0, l0, *values, opt_bytes(cover), t) == Err::<
                Map<Seq<char>, Seq<u8>>,
                Failure,
            >(failure_of(e)->0));
            return Err(e);
        },
    }
    report("Building EPUB…");
    let serialized = match write_xml(&package) {
        Ok(bytes) => bytes,
        Err(e) => {
            assert(prepared(c0, l0, *values, opt_bytes(cover), t) == Err::<
                Map<Seq<char>, Seq<u8>>,
                Failure,
            >(failure_of(e)->0));
            return Err(e);
        },
    };
    archive.set(opf_name, serialized);
    assert(prepared(c0, l0, *values, opt_bytes(cover), t) == Ok::<
        Map<Seq<char>, Seq<u8>>,
        Failure,
    >(archive.contents()));
    Ok(())
}


/// Whether the prepared book can be written whole: the source archive
/// opens and each of its members can be opened, read and copied, its names
/// and the prepared files are within the writer's limits (for every clock
/// value at which preparing succeeds).
pub open spec fn written_whole(source: Seq<u8>, values: BookMetadata, cover: Option<Seq<u8>>) -> bool {
    &&& sound_source(source)
    &&& names_fit(source)
    &&& forall|t: Seq<char>|
        is_utc_timestamp(t) ==> ((#[trigger] prepared(
            source_files(source),
            source_names(source),
            values,
            cover,
            t,
        )) matches Ok(files) ==> files_fit(files))
}

/// The files of the source archive `source`, by name.
pub open spec fn source_files(source: Seq<u8>) -> Map<Seq<char>, Seq<u8>> {
    initial_contents(zip_archive_members(source))
}

/// The names of the source archive `source`, in order.
pub open spec fn source_names(source: Seq<u8>) -> Seq<Seq<char>> {
    entry_names(merge_entries(zip_archive_members(source)))
}

/// The downloaded EPUB `source` prepared for reading: its metadata from
/// `metadata`, the system style sheet, fonts dropped, chapters repaired, the
/// cover in place, and the archive written anew with `mimetype` first.
/// `report` is told of each stage as it begins.
pub fn prepare_epub(
    source: &[u8],
    metadata: &BookMetadata,
    cover: Option<&[u8]>,
    report: impl Fn(&str),
) -> (r: Result<Vec<u8>, Error>)
    requires
        forall|message: &str| call_requires(report, (message,)),
    ensures
        match r {
            Ok(bytes) => exists|files: Map<Seq<char>, Seq<u8>>, w: ArchiveWriter, t: Seq<char>|
                {
                    &&& is_utc_timestamp(t)
                    &&& prepared(
                        source_files(source@),
                        source_names(source@),
                        *metadata,
                        opt_bytes(cover),
                        t,
                    ) == Ok::<Map<Seq<char>, Seq<u8>>, Failure>(files)
                    &&& archive_holds(zip_written(w), files)
                    &&& bytes@ == zip_bytes(w)
                    &&& forall|k: int|
                        1 <= k < zip_written(w).len() ==> (#[trigger] zip_written(w)[k]).2 is Copied
                            || zip_written(w)[k].2 == Storage::Deflated(COMPRESSION_LEVEL)
                    &&& forall|k: int|
                        0 <= k < zip_written(w).len() && (#[trigger] zip_written(w)[k]).2 is Copied
                            ==> from_source(source@, zip_written(w)[k])
                    &&& (sound_source(source@) && names_fit(source@) && files_fit(files)) ==> zip_opens(
                        bytes@,
                    ) && zip_archive_members(bytes@) == read_back(zip_written(w))
                },
            Err(e) => {
                &&& !zip_opens(source@) ==> e is InvalidArchive
                &&& e is InvalidArchive ==> !zip_opens(source@) || !written_whole(
                    source@,
                    *metadata,
                    opt_bytes(cover),
                )
                &&& e is Zip || e is Io ==> !written_whole(source@, *metadata, opt_bytes(cover))
                &&& e is Time ==> epub3_found(source_files(source@), source_names(source@))
                &&& failure_of(e) is Some ==> exists|t: Seq<char>|
                    is_utc_timestamp(t) && prepared(
                        source_files(source@),
                        source_names(source@),
                        *metadata,
                        opt_bytes(cover),
                        t,
                    ) == Err::<Map<Seq<char>, Seq<u8>>, Failure>(failure_of(e)->0)
            },
        },
        r is Ok ==> zip_opens(source@),
{
    let mut archive = match Archive::read(source) {
        Ok(a) => a,
        Err(e) => {
            proof {
                if zip_opens(source@) {
                    let i = choose|i: int|
                        0 <= i < zip_archive_members(source@).len() && !#[trigger] zip_entry_opens(
                            source@,
                            i,
                        );
                    assert(!sound_source(source@));
                }
            }
            return Err(e);
        },
    };
    let ghost a0 = archive;
    match prepare(&mut archive, metadata, cover, report) {
        Ok(()) => {},
        Err(e) => {
            return Err(e);
        },
    }
    let ghost done = archive;
    let ghost t = choose|t: Seq<char>|
        is_utc_timestamp(t) && prepared(
            a0.contents(),
            a0.listed(),
            *metadata,
            opt_bytes(cover),
            t,
        ) == Ok::<Map<Seq<char>, Seq<u8>>, Failure>(done.contents());
    proof {
        lemma_finished_archive(done);
        lemma_copied_from_source(done);
        if sound_source(source@) && names_fit(source@) && files_fit(done.contents()) {
            lemma_writable(done);
        }
    }
    match archive.finish() {
        Ok(bytes) => Ok(bytes),
        Err(e) => {
            assert(!written_whole(source@, *metadata, opt_bytes(cover))) by {
                if sound_source(source@) && names_fit(source@) {
                    if files_fit(done.contents()) {
                        lemma_writable(done);
                    }
                    assert(!files_fit(done.contents()));
                }
            }
            Err(e)
        },
    }
}

} // verus!
