//! An EPUB archive held in memory: its entries, its package document and its table of contents.

use vstd::prelude::*;
use vstd::utf8::{decode_utf8, valid_utf8};

use crate::epub::{
    container_opf_path, document_toc, entry_for, find_entry, first_rootfile, get_parent_dir,
    lemma_tocs_len, names_view, ncx_paths, ncx_paths_of, ncx_text_toc, normalized, package,
    parent_dir, parse_opf, parse_toc_ncx, toc_of_document, tocs_view, EpubError, EpubFailure,
    Package, PackageView, RawTocItem, ReadError, ReadFailure, TocView,
};
use crate::text::texts;
use crate::tree::attr;
use crate::xml::xml_nodes;

verus! {

// ---------------------------------------------------------------------------
// Entries
// ---------------------------------------------------------------------------

/// The names of the entries of a zip archive, in the order of its directory, with nothing for
/// each that cannot be opened or whose name cannot be decoded; or what is wrong with the archive.
pub uninterp spec fn zip_names(data: Seq<u8>) -> Result<Seq<Option<Seq<char>>>, Seq<char>>;

/// The bytes of the entry at a place of a zip archive, or what is wrong with it.
pub uninterp spec fn zip_entry(data: Seq<u8>, place: int) -> Result<Seq<u8>, Seq<char>>;

/// What is wrong with bytes that are no UTF-8 text.
pub uninterp spec fn utf8_error(bytes: Seq<u8>) -> Seq<char>;

/// Calls `zip::ZipArchive::new` on the bytes, and `by_index` for each entry, of which it takes the
/// `name`. The result depends on the bytes alone.
#[verifier::external_body]
fn list_entries(data: &Vec<u8>) -> (r: Result<Vec<Option<String>>, String>)
    ensures
        match r {
            Ok(names) => zip_names(data@) == Ok::<Seq<Option<Seq<char>>>, Seq<char>>(names_view(names@)),
            Err(e) => zip_names(data@) == Err::<Seq<Option<Seq<char>>>, Seq<char>>(e@),
        },
{
    let mut archive = zip::ZipArchive::new(std::io::Cursor::new(data)).map_err(|e| e.to_string())?;
    Ok((0..archive.len()).map(|i| archive.by_index(i).ok()?.name().ok().map(|n| n.into_owned())).collect())
}

/// Calls `zip::ZipArchive::new` on the bytes, `by_index` for the entry, and `read_to_end` on it.
/// The result depends on the bytes and the place alone.
#[verifier::external_body]
fn read_entry(data: &Vec<u8>, place: usize) -> (r: Result<Vec<u8>, String>)
    ensures
        match r {
            Ok(bytes) => zip_entry(data@, place as int) == Ok::<Seq<u8>, Seq<char>>(bytes@),
            Err(e) => zip_entry(data@, place as int) == Err::<Seq<u8>, Seq<char>>(e@),
        },
{
    let mut archive = zip::ZipArchive::new(std::io::Cursor::new(data)).map_err(|e| e.to_string())?;
    let mut entry = archive.by_index(place).map_err(|e| e.to_string())?;
    let mut bytes = Vec::new();
    std::io::Read::read_to_end(&mut entry, &mut bytes).map_err(|e| e.to_string())?;
    Ok(bytes)
}

/// Calls `String::from_utf8`: gives the characters that bytes encode where they are UTF-8, and an
/// error, whose message depends on the bytes alone, where they are not.
#[verifier::external_body]
fn text_from_utf8(bytes: Vec<u8>) -> (r: Result<String, String>)
    ensures
        match r {
            Ok(s) => valid_utf8(bytes@) && s@ == decode_utf8(bytes@),
            Err(e) => !valid_utf8(bytes@) && e@ == utf8_error(bytes@),
        },
{
    String::from_utf8(bytes).map_err(|e| e.to_string())
}

/// The bytes of the entry that a path names in an archive.
pub open spec fn entry_bytes(data: Seq<u8>, path: Seq<char>) -> Result<Seq<u8>, ReadFailure> {
    match zip_names(data) {
        Ok(names) => match entry_for(names, path) {
            Some(i) => match zip_entry(data, i) {
                Ok(bytes) => Ok(bytes),
                Err(e) => Err(ReadFailure::Unreadable(e)),
            },
            None => Err(ReadFailure::NotFound),
        },
        Err(_) => Err(ReadFailure::NotFound),
    }
}

/// The text of the entry that a path names in an archive.
pub open spec fn entry_text(data: Seq<u8>, path: Seq<char>) -> Result<Seq<char>, ReadFailure> {
    match entry_bytes(data, path) {
        Ok(bytes) => if valid_utf8(bytes) {
            Ok(decode_utf8(bytes))
        } else {
            Err(ReadFailure::NotText(utf8_error(bytes)))
        },
        Err(e) => Err(e),
    }
}

/// What is said of an entry that cannot be read.
pub open spec fn read_message(e: ReadFailure, path: Seq<char>) -> Seq<char> {
    match e {
        ReadFailure::NotFound => "File not found in EPUB archive: "@ + path,
        ReadFailure::Unreadable(e) => e,
        ReadFailure::NotText(e) => "UTF-8 decode error in "@ + path + ": "@ + e,
    }
}

impl ReadError {
    /// What is said of an entry that cannot be read.
    pub fn message(&self, path: &str) -> (r: String)
        ensures
            r@ == read_message(self@, path@),
    {
        match self {
            ReadError::NotFound => {
                let mut out = "File not found in EPUB archive: ".to_owned();
                out.append(path);
                out
            },
            ReadError::Unreadable(e) => e.clone(),
            ReadError::NotText(e) => {
                let mut out = "UTF-8 decode error in ".to_owned();
                out.append(path);
                out.append(": ");
                out.append(e.as_str());
                out
            },
        }
    }
}

// ---------------------------------------------------------------------------
// The package
// ---------------------------------------------------------------------------

/// The path and the contents of the package document of an archive, or why they cannot be had.
pub open spec fn opened(data: Seq<u8>) -> Result<(Seq<char>, PackageView), EpubFailure> {
    match zip_names(data) {
        Err(e) => Err(EpubFailure::Archive(e)),
        Ok(_) => match entry_text(data, "META-INF/container.xml"@) {
            Err(e) => Err(EpubFailure::Container(e)),
            Ok(xml) => match xml_nodes(xml) {
                Err(e) => Err(EpubFailure::ContainerXml(e)),
                Ok(d) => match first_rootfile(d, 0) {
                    None => Err(EpubFailure::NoRootfile),
                    Some(i) => package_at(data, normalized(attr(d[i], "full-path"@)->0)),
                },
            },
        },
    }
}

/// The path and the contents of the package document at a path, or why they cannot be had.
pub open spec fn package_at(
    data: Seq<u8>,
    path: Seq<char>,
) -> Result<(Seq<char>, PackageView), EpubFailure> {
    match entry_text(data, path) {
        Err(e) => Err(EpubFailure::PackageDocument(path, e)),
        Ok(opf) => match xml_nodes(opf) {
            Err(e) => Err(EpubFailure::PackageXml(e)),
            Ok(d) => Ok((path, package(d, parent_dir(path)))),
        },
    }
}

/// The first table of contents with entries among the documents at the paths from `k` on; one that
/// cannot be read is passed over.
pub open spec fn first_toc(data: Seq<u8>, paths: Seq<Seq<char>>, k: int) -> Seq<TocView>
    decreases paths.len() - k,
{
    if k < 0 || k >= paths.len() {
        Seq::empty()
    } else {
        let toc = match entry_text(data, paths[k]) {
            Ok(text) => ncx_text_toc(text, parent_dir(paths[k])),
            Err(_) => Seq::empty(),
        };
        if toc.len() > 0 {
            toc
        } else {
            first_toc(data, paths, k + 1)
        }
    }
}

/// The table of contents of a package: that of its table-of-contents document, where it can be
/// read and has entries, or else the first with entries among its NCX documents.
pub open spec fn archive_toc(data: Seq<u8>, opf_path: Seq<char>, p: PackageView) -> Seq<TocView> {
    let named = match p.metadata.toc_href {
        Some(path) => match entry_text(data, path) {
            Ok(text) => document_toc(path, text),
            Err(_) => Seq::empty(),
        },
        None => Seq::empty(),
    };
    if named.len() > 0 {
        named
    } else {
        first_toc(data, ncx_paths_of(p.manifest, parent_dir(opf_path)), 0)
    }
}

/// An EPUB archive, with what its package document says.
pub struct EpubArchive {
    pub data: Vec<u8>,
    pub names: Vec<Option<String>>,
    pub opf_path: String,
    pub opf_dir: String,
    pub package: Package,
}

fn find_bytes(
    data: &Vec<u8>,
    names: &Vec<Option<String>>,
    path: &str,
) -> (r: Result<Vec<u8>, ReadError>)
    requires
        zip_names(data@) == Ok::<Seq<Option<Seq<char>>>, Seq<char>>(names_view(names@)),
    ensures
        match r {
            Ok(bytes) => entry_bytes(data@, path@) == Ok::<Seq<u8>, ReadFailure>(bytes@),
            Err(e) => entry_bytes(data@, path@) == Err::<Seq<u8>, ReadFailure>(e@),
        },
{
    match find_entry(names, path) {
        None => Err(ReadError::NotFound),
        Some(i) => match read_entry(data, i) {
            Ok(bytes) => Ok(bytes),
            Err(e) => Err(ReadError::Unreadable(e)),
        },
    }
}

fn find_text(
    data: &Vec<u8>,
    names: &Vec<Option<String>>,
    path: &str,
) -> (r: Result<String, ReadError>)
    requires
        zip_names(data@) == Ok::<Seq<Option<Seq<char>>>, Seq<char>>(names_view(names@)),
    ensures
        match r {
            Ok(text) => entry_text(data@, path@) == Ok::<Seq<char>, ReadFailure>(text@),
            Err(e) => entry_text(data@, path@) == Err::<Seq<char>, ReadFailure>(e@),
        },
{
    match find_bytes(data, names, path) {
        Err(e) => Err(e),
        Ok(bytes) => match text_from_utf8(bytes) {
            Ok(text) => Ok(text),
            Err(e) => Err(ReadError::NotText(e)),
        },
    }
}

impl EpubArchive {
    /// The names are those of the archive's entries, and the package is the one that it names.
    pub open spec fn wf(&self) -> bool {
        &&& zip_names(self.data@) == Ok::<Seq<Option<Seq<char>>>, Seq<char>>(names_view(self.names@))
        &&& opened(self.data@) == Ok::<(Seq<char>, PackageView), EpubFailure>((self.opf_path@, self.package@))
        &&& self.opf_dir@ == parent_dir(self.opf_path@)
    }

    /// Opens an archive, and reads the package document that its container document names.
    pub fn open(data: Vec<u8>) -> (r: Result<EpubArchive, EpubError>)
        ensures
            match r {
                Ok(a) => a.wf() && a.data == data,
                Err(e) => opened(data@) == Err::<(Seq<char>, PackageView), EpubFailure>(e@),
            },
    {
        let names = match list_entries(&data) {
            Ok(names) => names,
            Err(e) => return Err(EpubError::Archive(e)),
        };
        let container = match find_text(&data, &names, "META-INF/container.xml") {
            Ok(text) => text,
            Err(e) => return Err(EpubError::Container(e)),
        };
        let opf_path = match container_opf_path(container.as_str()) {
            Ok(path) => path,
            Err(e) => return Err(e),
        };
        let opf_dir = get_parent_dir(opf_path.as_str());
        let opf = match find_text(&data, &names, opf_path.as_str()) {
            Ok(text) => text,
            Err(e) => return Err(EpubError::PackageDocument(opf_path, e)),
        };
        let package = match parse_opf(opf.as_str(), opf_dir.as_str()) {
            Ok(p) => p,
            Err(e) => return Err(e),
        };
        Ok(EpubArchive { data, names, opf_path, opf_dir, package })
    }

    /// The bytes of the entry that a path names.
    pub fn read_bytes(&self, path: &str) -> (r: Result<Vec<u8>, ReadError>)
        requires
            self.wf(),
        ensures
            match r {
                Ok(bytes) => entry_bytes(self.data@, path@) == Ok::<Seq<u8>, ReadFailure>(bytes@),
                Err(e) => entry_bytes(self.data@, path@) == Err::<Seq<u8>, ReadFailure>(e@),
            },
    {
        find_bytes(&self.data, &self.names, path)
    }

    /// The text of the entry that a path names.
    pub fn read_string(&self, path: &str) -> (r: Result<String, ReadError>)
        requires
            self.wf(),
        ensures
            match r {
                Ok(text) => entry_text(self.data@, path@) == Ok::<Seq<char>, ReadFailure>(text@),
                Err(e) => entry_text(self.data@, path@) == Err::<Seq<char>, ReadFailure>(e@),
            },
    {
        find_text(&self.data, &self.names, path)
    }

    /// The table of contents of the package.
    pub fn extract_toc(&self) -> (r: Vec<RawTocItem>)
        requires
            self.wf(),
        ensures
            tocs_view(r@) == archive_toc(self.data@, self.opf_path@, self.package@),
    {
        if let Some(path) = &self.package.metadata.toc_href {
            if let Ok(text) = self.read_string(path.as_str()) {
                let items = toc_of_document(path.as_str(), text.as_str());
                proof {
                    lemma_tocs_len(items@);
                }
                if items.len() > 0 {
                    return items;
                }
            }
        }
        let paths = ncx_paths(&self.package.manifest, self.opf_dir.as_str());
        let ghost all = texts(paths@);
        let mut k: usize = 0;
        while k < paths.len()
            invariant
                k <= paths@.len(),
                self.wf(),
                all == texts(paths@),
                archive_toc(self.data@, self.opf_path@, self.package@) == first_toc(self.data@, all, k as int),
            decreases paths@.len() - k,
        {
            assert(all[k as int] == paths@[k as int]@);
            if let Ok(text) = self.read_string(paths[k].as_str()) {
                let dir = get_parent_dir(paths[k].as_str());
                let items = parse_toc_ncx(text.as_str(), dir.as_str());
                proof {
                    lemma_tocs_len(items@);
                }
                if items.len() > 0 {
                    return items;
                }
            }
            k += 1;
        }
        let none: Vec<RawTocItem> = Vec::new();
        proof {
            lemma_tocs_len(none@);
            assert(tocs_view(none@) =~= Seq::<TocView>::empty());
        }
        none
    }
}

} // verus!
