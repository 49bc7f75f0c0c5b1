//! The catalog of reference fingerprints and its line format.
//!
//! A catalog is kept as text, one entry per line: the path of the reference
//! image, a space, and the fingerprint in Base64.
use vstd::prelude::*;
use vstd::string::*;
use crate::fingerprint::{hash_from_base64, hash_to_base64, Fingerprint, HASH_BYTES};
use crate::raster::Image;

verus! {

/// A reference image of the catalog: its fingerprint and where it came from.
#[derive(Clone, Debug)]
pub struct DatasetEntry {
    pub hash: Fingerprint,
    pub path: String,
}

/// Why a catalog could not be loaded.
#[derive(Clone, Copy, Debug, PartialEq, Eq)]
pub enum CatalogError {
    /// The catalog has no entry.
    CatalogEmpty,
    /// The line at this position, counted from zero, is no entry.
    MalformedCacheLine { line: usize },
}

/// The position of the first space of `s` at or after `from`; the length of
/// `s` if there is none.
pub open spec fn first_space(s: Seq<char>, from: int) -> int
    decreases s.len() - from,
{
    if from < 0 || from >= s.len() {
        s.len() as int
    } else if s[from] == ' ' {
        from
    } else {
        first_space(s, from + 1)
    }
}

/// The first two of the fields that the spaces of a line divide it into;
/// `None` where the line has no space and so a single field.
pub open spec fn fields(line: Seq<char>) -> Option<(Seq<char>, Seq<char>)> {
    let i = first_space(line, 0);
    if i >= line.len() {
        None
    } else {
        Some((line.subrange(0, i), line.subrange(i + 1, first_space(line, i + 1))))
    }
}

/// The path and the fingerprint that a line of the catalog stands for;
/// `None` where the line has fewer than two fields, or its second field is no
/// Base64 text of a fingerprint.
pub open spec fn parsed(line: Seq<char>) -> Option<(Seq<char>, Seq<u8>)> {
    match fields(line) {
        Some((path, text)) => match hash_from_base64(text) {
            Some(bits) => if bits.len() == HASH_BYTES {
                Some((path, bits))
            } else {
                None
            },
            None => None,
        },
        None => None,
    }
}

/// The line that stands for an entry of the catalog.
pub open spec fn formatted(path: Seq<char>, bits: Seq<u8>) -> Seq<char> {
    path + seq![' '] + hash_to_base64(bits)
}

/// Whether the entry holds the path and the fingerprint `value`.
pub open spec fn holds(entry: DatasetEntry, value: (Seq<char>, Seq<u8>)) -> bool {
    entry.path@ == value.0 && entry.hash@ == value.1 && entry.hash.wf()
}

proof fn lemma_first_space_skip(s: Seq<char>, from: int, i: int)
    requires
        0 <= from <= i <= s.len(),
        forall|j: int| from <= j < i ==> s[j] != ' ',
    ensures
        first_space(s, from) == first_space(s, i),
    decreases i - from,
{
    if from < i {
        lemma_first_space_skip(s, from + 1, i);
    }
}

/// Finds the first space of `line` at or after `from`.
fn find_space(line: &str, from: usize, len: usize) -> (i: usize)
    requires
        len == line@.len(),
        from <= len,
    ensures
        i == first_space(line@, from as int),
        from <= i <= len,
{
    let mut i: usize = from;
    while i < len
        invariant
            from <= i <= len,
            len == line@.len(),
            forall|j: int| from <= j < i ==> line@[j] != ' ',
        ensures
            from <= i <= len,
            forall|j: int| from <= j < i ==> line@[j] != ' ',
            i < len ==> line@[i as int] == ' ',
        decreases len - i,
    {
        if line.get_char(i) == ' ' {
            break ;
        }
        i = i + 1;
    }
    proof {
        lemma_first_space_skip(line@, from as int, i as int);
    }
    i
}

/// Reads one line of the catalog.
///
/// The line is divided at its spaces; the first field is the path and the
/// second the fingerprint in Base64. Further fields are ignored.
pub fn parse_cache_line(line: &str) -> (entry: Option<DatasetEntry>)
    ensures
        entry.is_some() == parsed(line@).is_some(),
        entry.is_some() ==> holds(entry.unwrap(), parsed(line@).unwrap()),
{
    let len: usize = line.unicode_len();
    let i: usize = find_space(line, 0, len);
    if i >= len {
        return None;
    }
    let j: usize = find_space(line, i + 1, len);
    let path: &str = line.substring_char(0, i);
    let text: &str = line.substring_char(i + 1, j);
    match Fingerprint::from_base64(text) {
        Some(hash) => Some(DatasetEntry { hash, path: String::from_str(path) }),
        None => None,
    }
}

/// Writes one line of the catalog, without a line terminator.
///
/// Where the path holds no space, reading the line gives the entry back.
pub fn format_cache_line(entry: &DatasetEntry) -> (line: String)
    requires
        entry.hash.wf(),
    ensures
        line@ == formatted(entry.path@, entry.hash@),
        !entry.path@.contains(' ') ==> parsed(line@) == Some((entry.path@, entry.hash@)),
{
    let text: String = entry.hash.to_base64();
    let mut line: String = entry.path.clone();
    line.append(" ");
    line.append(text.as_str());
    proof {
        reveal_strlit(" ");
        assert(" "@ =~= seq![' ']);
        let path = entry.path@;
        let s = line@;
        assert(s =~= formatted(path, entry.hash@));
        if !path.contains(' ') {
            let n = path.len() as int;
            assert forall|k: int| 0 <= k < n implies s[k] != ' ' by {
                assert(s[k] == path[k]);
                assert(path.contains(path[k]));
            }
            lemma_first_space_skip(s, 0, n);
            assert(s[n] == ' ');
            assert(first_space(s, 0) == n);
            assert forall|k: int| n + 1 <= k < s.len() implies s[k] != ' ' by {
                assert(s[k] == text@[k - n - 1]);
                assert(text@.contains(text@[k - n - 1]));
            }
            lemma_first_space_skip(s, n + 1, s.len() as int);
            assert(first_space(s, n + 1) == s.len());
            assert(s.subrange(0, n) =~= path);
            assert(s.subrange(n + 1, s.len() as int) =~= text@);
        }
    }
    line
}

/// Reads a catalog from its lines.
///
/// A catalog without lines is refused, and so is one with a line that is no
/// entry: the first such line is reported.
pub fn parse_dataset(lines: &Vec<String>) -> (result: Result<Vec<DatasetEntry>, CatalogError>)
    ensures
        match result {
            Ok(entries) => {
                &&& lines.len() > 0
                &&& entries.len() == lines.len()
                &&& forall|i: int|
                    #![trigger lines[i]]
                    0 <= i < lines.len() ==> parsed(lines[i]@).is_some() && holds(
                        entries[i],
                        parsed(lines[i]@).unwrap(),
                    )
            },
            Err(CatalogError::CatalogEmpty) => lines.len() == 0,
            Err(CatalogError::MalformedCacheLine { line }) => {
                &&& line < lines.len()
                &&& parsed(lines[line as int]@).is_none()
                &&& forall|i: int| #![trigger lines[i]] 0 <= i < line ==> parsed(lines[i]@).is_some()
            },
        },
{
    if lines.len() == 0 {
        return Err(CatalogError::CatalogEmpty);
    }
    let mut entries: Vec<DatasetEntry> = Vec::new();
    let mut i: usize = 0;
    while i < lines.len()
        invariant
            i <= lines.len(),
            entries.len() == i,
            forall|k: int|
                #![trigger lines[k]]
                0 <= k < i ==> parsed(lines[k]@).is_some() && holds(
                    entries[k],
                    parsed(lines[k]@).unwrap(),
                ),
        decreases lines.len() - i,
    {
        match parse_cache_line(lines[i].as_str()) {
            Some(entry) => {
                entries.push(entry);
            },
            None => {
                return Err(CatalogError::MalformedCacheLine { line: i });
            },
        }
        i = i + 1;
    }
    Ok(entries)
}

/// Makes the catalog entry of a reference image.
pub fn calculate_dataset_entry(path: &str, image: &Image) -> (entry: DatasetEntry)
    requires
        image.wf(),
        image.width > 0,
        image.height > 0,
    ensures
        entry.path@ == path@,
        entry.hash.wf(),
{
    DatasetEntry { hash: Fingerprint::of_image(image), path: String::from_str(path) }
}

/// Builds the catalog of a directory of reference images, given as pairs
/// of path and picture, and the lines that stand for it.
pub fn build_dataset(images: &Vec<(String, Image)>) -> (result: Result<(Vec<DatasetEntry>, Vec<String>), CatalogError>)
    requires
        forall|i: int|
            0 <= i < images.len() ==> (#[trigger] images[i]).1.wf() && images[i].1.width > 0
                && images[i].1.height > 0,
    ensures
        match result {
            Ok((entries, lines)) => {
                &&& images.len() > 0
                &&& entries.len() == images.len()
                &&& lines.len() == images.len()
                &&& forall|i: int|
                    #![trigger images[i]]
                    0 <= i < images.len() ==> {
                        &&& entries[i].path@ == images[i].0@
                        &&& entries[i].hash.wf()
                        &&& lines[i]@ == formatted(entries[i].path@, entries[i].hash@)
                        &&& !entries[i].path@.contains(' ') ==> parsed(lines[i]@) == Some(
                            (entries[i].path@, entries[i].hash@),
                        )
                    }
            },
            Err(error) => images.len() == 0 && error == CatalogError::CatalogEmpty,
        },
{
    if images.len() == 0 {
        return Err(CatalogError::CatalogEmpty);
    }
    let mut entries: Vec<DatasetEntry> = Vec::new();
    let mut lines: Vec<String> = Vec::new();
    let mut i: usize = 0;
    while i < images.len()
        invariant
            i <= images.len(),
            entries.len() == i,
            lines.len() == i,
            forall|k: int|
                0 <= k < images.len() ==> (#[trigger] images[k]).1.wf() && images[k].1.width > 0
                    && images[k].1.height > 0,
            forall|k: int|
                #![trigger images[k]]
                0 <= k < i ==> {
                    &&& entries[k].path@ == images[k].0@
                    &&& entries[k].hash.wf()
                    &&& lines[k]@ == formatted(entries[k].path@, entries[k].hash@)
                    &&& !entries[k].path@.contains(' ') ==> parsed(lines[k]@) == Some(
                        (entries[k].path@, entries[k].hash@),
                    )
                },
        decreases images.len() - i,
    {
        let entry: DatasetEntry = calculate_dataset_entry(images[i].0.as_str(), &images[i].1);
        let line: String = format_cache_line(&entry);
        entries.push(entry);
        lines.push(line);
        i = i + 1;
    }
    Ok((entries, lines))
}

/// Loads the catalog from the lines of its cache, or builds it where there
/// is no cache.
///
/// With a cache, the catalog is read from it and nothing is to be written.
/// Without one, the catalog is built from the reference images, and the
/// second part of the result holds the lines of the cache to write.
pub fn load_or_build_dataset(cache: Option<&Vec<String>>, images: &Vec<(String, Image)>) -> (result: Result<
    (Vec<DatasetEntry>, Vec<String>),
    CatalogError,
>)
    requires
        cache.is_none() ==> forall|i: int|
            0 <= i < images.len() ==> (#[trigger] images[i]).1.wf() && images[i].1.width > 0
                && images[i].1.height > 0,
    ensures
        match cache {
            Some(lines) => match result {
                Ok((entries, written)) => {
                    &&& written.len() == 0
                    &&& lines.len() > 0
                    &&& entries.len() == lines.len()
                    &&& forall|i: int|
                        #![trigger lines[i]]
                        0 <= i < lines.len() ==> parsed(lines[i]@).is_some() && holds(
                            entries[i],
                            parsed(lines[i]@).unwrap(),
                        )
                },
                Err(CatalogError::CatalogEmpty) => lines.len() == 0,
                Err(CatalogError::MalformedCacheLine { line }) => {
                    &&& line < lines.len()
                    &&& parsed(lines[line as int]@).is_none()
                    &&& forall|i: int| #![trigger lines[i]] 0 <= i < line ==> parsed(lines[i]@).is_some()
                },
            },
            None => match result {
                Ok((entries, written)) => {
                    &&& images.len() > 0
                    &&& entries.len() == images.len()
                    &&& written.len() == images.len()
                    &&& forall|i: int|
                        #![trigger images[i]]
                        0 <= i < images.len() ==> {
                            &&& entries[i].path@ == images[i].0@
                            &&& entries[i].hash.wf()
                            &&& written[i]@ == formatted(entries[i].path@, entries[i].hash@)
                        }
                },
                Err(error) => images.len() == 0 && error == CatalogError::CatalogEmpty,
            },
        },
{
    match cache {
        Some(lines) => match parse_dataset(lines) {
            Ok(entries) => Ok((entries, Vec::new())),
            Err(error) => Err(error),
        },
        None => build_dataset(images),
    }
}

} // verus!
