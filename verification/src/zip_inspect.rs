//! ZIP-family container inspection: disambiguates the many formats that
//! share the ZIP envelope by reading just enough archive structure — a
//! `mimetype` entry, the entry-name list, and two well-known manifest
//! entries.

use crate::registry::Registry;
use crate::strutil::{
    spec_starts_with, spec_str_contains, spec_trim, str_contains, str_eq, str_starts_with,
    trim_str,
};
use vstd::prelude::*;

verus! {

/// The archive's entry-name list; a function of the bytes alone.
/// Nothing when the bytes do not open as an archive.
pub uninterp spec fn zip_name_list(bytes: Seq<u8>) -> Option<Seq<Seq<char>>>;

/// The text content of the named entry; a function of the bytes and
/// the name alone.  Nothing when the archive does not open, the entry
/// is absent, or its content is not text.
pub uninterp spec fn zip_entry_content(bytes: Seq<u8>, name: Seq<char>) -> Option<Seq<char>>;

/// The first 64 bytes of the named entry, as text; a function of the
/// bytes and the name alone.
pub uninterp spec fn zip_entry_head(bytes: Seq<u8>, name: Seq<char>) -> Option<Seq<char>>;

/// Relies on zip::ZipArchive::new and ZipArchive::file_names: the
/// entry names, in central-directory order, are determined by the
/// archive bytes alone.
#[verifier::external_body]
fn zip_entry_names(bytes: &[u8]) -> (r: Option<Vec<String>>)
    ensures
        (r is Some) == (zip_name_list(bytes@) is Some),
        r matches Some(v) ==> Some(v@.map(|_i: int, s: String| s@)) == zip_name_list(bytes@),
{
    match zip::ZipArchive::new(std::io::Cursor::new(bytes)) {
        Ok(archive) => Some(archive.file_names().map(|s| s.to_string()).collect()),
        Err(_) => None,
    }
}

/// Relies on zip::ZipArchive::by_name and Read::read_to_string: the
/// text of a named entry is determined by the archive bytes and the
/// name alone.
#[verifier::external_body]
fn zip_read_entry(bytes: &[u8], name: &str) -> (r: Option<String>)
    ensures
        (r is Some) == (zip_entry_content(bytes@, name@) is Some),
        r matches Some(s) ==> Some(s@) == zip_entry_content(bytes@, name@),
{
    let mut archive = zip::ZipArchive::new(std::io::Cursor::new(bytes)).ok()?;
    let mut file = archive.by_name(name).ok()?;
    let mut out = String::new();
    std::io::Read::read_to_string(&mut file, &mut out).ok()?;
    Some(out)
}

/// Relies on zip::ZipArchive::by_name and Read::take: the first 64
/// bytes of a named entry, as text, are determined by the archive
/// bytes and the name alone.
#[verifier::external_body]
fn zip_read_entry_head(bytes: &[u8], name: &str) -> (r: Option<String>)
    ensures
        (r is Some) == (zip_entry_head(bytes@, name@) is Some),
        r matches Some(s) ==> Some(s@) == zip_entry_head(bytes@, name@),
{
    let mut archive = zip::ZipArchive::new(std::io::Cursor::new(bytes)).ok()?;
    let file = archive.by_name(name).ok()?;
    let mut out = String::new();
    std::io::Read::read_to_string(&mut std::io::Read::take(file, 64), &mut out).ok()?;
    Some(out)
}

/// What one entry name says about the office-XML families.
pub open spec fn spec_ooxml_name(name: Seq<char>) -> Option<Seq<char>> {
    if spec_starts_with(name, "word/"@) {
        Some("application/vnd.openxmlformats-officedocument.wordprocessingml.document"@)
    } else if spec_starts_with(name, "ppt/"@) {
        Some("application/vnd.openxmlformats-officedocument.presentationml.presentation"@)
    } else if spec_starts_with(name, "xl/"@) {
        Some("application/vnd.openxmlformats-officedocument.spreadsheetml.sheet"@)
    } else if spec_starts_with(name, "visio/"@) {
        Some("application/vnd.openxmlformats-officedocument.presentationml.presentation"@)
    } else if spec_starts_with(name, "theme/"@) {
        Some("application/vnd.openxmlformats-officedocument"@)
    } else if spec_starts_with(name, "Documents/1/"@) {
        Some("application/vnd.ms-xpsdocument"@)
    } else if name == "AndroidManifest.xml"@ {
        Some("application/vnd.android.package-archive"@)
    } else {
        None
    }
}

/// The first entry name, in order, that names an office-XML family.
pub open spec fn spec_zip_ooxml(names: Seq<Seq<char>>, i: int) -> Option<Seq<char>>
    decreases names.len() - i,
{
    if 0 <= i < names.len() {
        match spec_ooxml_name(names[i]) {
            Some(m) => Some(m),
            None => spec_zip_ooxml(names, i + 1),
        }
    } else {
        None
    }
}

/// Resolving a trimmed `mimetype` entry through the exact-lookup map:
/// the canonical mime of the first registered node.
pub open spec fn spec_zip_resolve(reg: Registry, content: Seq<char>) -> Option<Seq<char>> {
    let trimmed = spec_trim(content);
    match reg.spec_lookup(trimmed) {
        Some(ns) => if ns.len() > 0 && (ns[0] as int) < reg.nodes@.len() {
            Some(reg.nodes@[ns[0] as int].mime@)
        } else {
            None
        },
        None => None,
    }
}

/// The verdict of the legacy office-suite manifest.
pub open spec fn spec_sun_manifest(content: Seq<char>) -> Option<Seq<char>> {
    if spec_str_contains(content, "application/vnd.sun.xml.calc"@) {
        Some("application/vnd.sun.xml.calc"@)
    } else if spec_str_contains(content, "application/vnd.sun.xml.writer"@) {
        Some("application/vnd.sun.xml.writer"@)
    } else if spec_str_contains(content, "application/vnd.sun.xml.impress"@) {
        Some("application/vnd.sun.xml.impress"@)
    } else if spec_str_contains(content, "application/vnd.sun.xml.draw"@) {
        Some("application/vnd.sun.xml.draw"@)
    } else {
        None
    }
}

/// The verdict of the `mimetype` entry, resolved through the registry.
pub open spec fn spec_has_mimetype_file(reg: Registry, bytes: Seq<u8>) -> Option<Seq<char>> {
    match zip_entry_content(bytes, "mimetype"@) {
        Some(c) => spec_zip_resolve(reg, c),
        None => None,
    }
}

/// The verdict of the entry-name prefixes.
pub open spec fn spec_is_ooxml(bytes: Seq<u8>) -> Option<Seq<char>> {
    match zip_name_list(bytes) {
        Some(names) => spec_zip_ooxml(names, 0),
        None => None,
    }
}

/// The verdict of the keynote marker in the head of `index.apxl`.
pub open spec fn spec_is_apple_office(bytes: Seq<u8>) -> Option<Seq<char>> {
    match zip_entry_head(bytes, "index.apxl"@) {
        Some(c) => if spec_str_contains(c, "<key:"@) {
            Some("application/vnd.apple.keynote"@)
        } else {
            None
        },
        None => None,
    }
}

/// The verdict of the legacy office-suite manifest entry.
pub open spec fn spec_is_sun_office(bytes: Seq<u8>) -> Option<Seq<char>> {
    match zip_entry_content(bytes, "META-INF/manifest.xml"@) {
        Some(c) => spec_sun_manifest(c),
        None => None,
    }
}

/// What the ZIP inspector concludes from a buffer, in the fixed rule
/// order: the `mimetype` entry, the entry-name prefixes, the keynote
/// marker, then the legacy office-suite manifest.
pub open spec fn spec_zip_check(reg: Registry, bytes: Seq<u8>) -> Option<Seq<char>> {
    if !(bytes.len() >= 2 && bytes[0] == 0x50 && bytes[1] == 0x4b) {
        None
    } else {
        let m1 = spec_has_mimetype_file(reg, bytes);
        if m1 is Some {
            m1
        } else {
            let m2 = spec_is_ooxml(bytes);
            if m2 is Some {
                m2
            } else {
                let m3 = spec_is_apple_office(bytes);
                if m3 is Some {
                    m3
                } else {
                    spec_is_sun_office(bytes)
                }
            }
        }
    }
}

/// Classifies one entry name against the office-XML prefixes.
fn ooxml_name(name: &str) -> (r: Option<&'static str>)
    ensures
        match spec_ooxml_name(name@) {
            Some(m) => r matches Some(v) && v@ == m,
            None => r is None,
        },
{
    if str_starts_with(name, "word/") {
        Some("application/vnd.openxmlformats-officedocument.wordprocessingml.document")
    } else if str_starts_with(name, "ppt/") {
        Some("application/vnd.openxmlformats-officedocument.presentationml.presentation")
    } else if str_starts_with(name, "xl/") {
        Some("application/vnd.openxmlformats-officedocument.spreadsheetml.sheet")
    } else if str_starts_with(name, "visio/") {
        Some("application/vnd.openxmlformats-officedocument.presentationml.presentation")
    } else if str_starts_with(name, "theme/") {
        Some("application/vnd.openxmlformats-officedocument")
    } else if str_starts_with(name, "Documents/1/") {
        Some("application/vnd.ms-xpsdocument")
    } else if str_eq(name, "AndroidManifest.xml") {
        Some("application/vnd.android.package-archive")
    } else {
        None
    }
}

/// The ZIP-family inspector.
pub struct ZipSpecialHandler;

impl ZipSpecialHandler {
    /// The epub-style rule: a `mimetype` entry whose trimmed text
    /// resolves through the exact-lookup map to a canonical type.
    fn has_mimetype_file(&self, reg: &Registry, bytes: &[u8]) -> (r: Option<String>)
        ensures
            match spec_has_mimetype_file(*reg, bytes@) {
                Some(m) => r matches Some(s) && s@ == m,
                None => r is None,
            },
    {
        let content = zip_read_entry(bytes, "mimetype")?;
        let trimmed = trim_str(content.as_str());
        let e = reg.lookup_entry(trimmed.as_str())?;
        let ns = &reg.mime_map[e].nodes;
        if ns.len() > 0 {
            let idx = ns[0];
            if idx < reg.nodes.len() {
                return Some(reg.nodes[idx].mime.clone());
            }
        }
        None
    }

    /// The office-XML rule: disambiguating path prefixes in the entry
    /// names, first applicable name wins.
    fn is_ooxml(&self, bytes: &[u8]) -> (r: Option<String>)
        ensures
            match spec_is_ooxml(bytes@) {
                Some(m) => r matches Some(s) && s@ == m,
                None => r is None,
            },
    {
        let names = zip_entry_names(bytes)?;
        let ghost gnames = names@.map(|_i: int, s: String| s@);
        let mut i: usize = 0;
        while i < names.len()
            invariant
                i <= names@.len(),
                gnames == names@.map(|_i: int, s: String| s@),
                zip_name_list(bytes@) == Some(gnames),
                spec_zip_ooxml(gnames, 0) == spec_zip_ooxml(gnames, i as int),
            decreases names@.len() - i,
        {
            proof {
                assert(gnames[i as int] == names@[i as int]@);
            }
            match ooxml_name(names[i].as_str()) {
                Some(m) => {
                    return Some(m.to_owned());
                },
                None => {},
            }
            i += 1;
        }
        None
    }

    /// The keynote rule: a marker substring in the first bytes of
    /// `index.apxl`.
    fn is_apple_office_zip(&self, bytes: &[u8]) -> (r: Option<String>)
        ensures
            match spec_is_apple_office(bytes@) {
                Some(m) => r matches Some(s) && s@ == m,
                None => r is None,
            },
    {
        let head = zip_read_entry_head(bytes, "index.apxl")?;
        if str_contains(head.as_str(), "<key:") {
            return Some("application/vnd.apple.keynote".to_owned());
        }
        None
    }

    /// The legacy office-suite rule: the declared media type inside
    /// `META-INF/manifest.xml`, first of four known strings to appear.
    fn is_sun_office_zip(&self, bytes: &[u8]) -> (r: Option<String>)
        ensures
            match spec_is_sun_office(bytes@) {
                Some(m) => r matches Some(s) && s@ == m,
                None => r is None,
            },
    {
        let content = zip_read_entry(bytes, "META-INF/manifest.xml")?;
        if str_contains(content.as_str(), "application/vnd.sun.xml.calc") {
            return Some("application/vnd.sun.xml.calc".to_owned());
        }
        if str_contains(content.as_str(), "application/vnd.sun.xml.writer") {
            return Some("application/vnd.sun.xml.writer".to_owned());
        }
        if str_contains(content.as_str(), "application/vnd.sun.xml.impress") {
            return Some("application/vnd.sun.xml.impress".to_owned());
        }
        if str_contains(content.as_str(), "application/vnd.sun.xml.draw") {
            return Some("application/vnd.sun.xml.draw".to_owned());
        }
        None
    }

    /// Inspects a buffer that may be a ZIP archive; yields the
    /// disambiguated mime, or nothing when the buffer is no archive or
    /// none of the rules applies.
    pub fn check(&self, reg: &Registry, bytes: &[u8]) -> (r: Option<String>)
        ensures
            match spec_zip_check(*reg, bytes@) {
                Some(m) => r matches Some(s) && s@ == m,
                None => r is None,
            },
    {
        if bytes.len() < 2 || bytes[0] != 0x50 || bytes[1] != 0x4b {
            return None;
        }
        match self.has_mimetype_file(reg, bytes) {
            Some(m) => {
                return Some(m);
            },
            None => {},
        }
        match self.is_ooxml(bytes) {
            Some(m) => {
                return Some(m);
            },
            None => {},
        }
        match self.is_apple_office_zip(bytes) {
            Some(m) => {
                return Some(m);
            },
            None => {},
        }
        self.is_sun_office_zip(bytes)
    }
}

} // verus!
