//! The content directory and its loader.
//!
//! A directory is a collection of named pieces of content, each
//! either readable text or a read failure with its diagnostic. An
//! identifier resolves to the first entry carrying its name; an
//! identifier with no entry is not found. The caller that assembles a
//! `Directory` from files on disk keeps one entry per file, named by
//! the file's stem.

use vstd::prelude::*;

verus! {

/// One piece of content: its name and either its text or the
/// diagnostic of the failed attempt to read it.
pub struct DirEntry {
    pub name: Vec<u8>,
    pub content: Result<Vec<u8>, String>,
}

/// A directory of content entries.
pub struct Directory {
    pub entries: Vec<DirEntry>,
}

impl View for Directory {
    type V = Seq<DirEntry>;

    open spec fn view(&self) -> Seq<DirEntry> {
        self.entries@
    }
}

/// Why a load failed: no entry of that name, or an entry whose text
/// could not be read, with the diagnostic.
#[derive(Debug)]
pub enum LoadError {
    NotFound,
    Io(String),
}

/// What a name resolves to: nothing, text, or a read failure's
/// diagnostic.
pub open spec fn lookup_spec(entries: Seq<DirEntry>, name: Seq<u8>) -> Option<
    Result<Seq<u8>, Seq<char>>,
>
    decreases entries.len(),
{
    if entries.len() == 0 {
        None
    } else if entries[0].name@ == name {
        match entries[0].content {
            Ok(text) => Some(Ok(text@)),
            Err(message) => Some(Err(message@)),
        }
    } else {
        lookup_spec(entries.drop_first(), name)
    }
}

/// A name resolves to readable text.
pub open spec fn resolves(entries: Seq<DirEntry>, name: Seq<u8>) -> bool {
    lookup_spec(entries, name) matches Some(Ok(_))
}

/// The text a resolving name loads.
pub open spec fn loaded_text(entries: Seq<DirEntry>, name: Seq<u8>) -> Seq<u8>
    recommends
        resolves(entries, name),
{
    lookup_spec(entries, name)->Some_0->Ok_0
}

/// Whether two byte vectors hold the same bytes.
fn bytes_equal(a: &Vec<u8>, b: &Vec<u8>) -> (r: bool)
    ensures
        r == (a@ == b@),
{
    if a.len() != b.len() {
        return false;
    }
    let n = a.len();
    let mut k: usize = 0;
    while k < n
        invariant
            n == a@.len() == b@.len(),
            k <= n,
            forall|j: int| 0 <= j < k ==> a@[j] == b@[j],
        decreases n - k,
    {
        if a[k] != b[k] {
            return false;
        }
        k += 1;
    }
    proof {
        assert(a@ =~= b@);
    }
    true
}

/// Loads the content of `identifier` from `directory`: the text of
/// the first entry of that name, `NotFound` when there is none, and
/// the read failure's diagnostic when the entry could not be read.
pub fn load(identifier: &Vec<u8>, directory: &Directory) -> (r: Result<Vec<u8>, LoadError>)
    ensures
        match lookup_spec(directory@, identifier@) {
            Option::None => r matches Err(LoadError::NotFound),
            Option::Some(Ok(text)) => r matches Ok(t) && t@ == text,
            Option::Some(Err(message)) => r matches Err(LoadError::Io(m)) && m@ == message,
        },
{
    let n = directory.entries.len();
    let mut k: usize = 0;
    proof {
        assert(directory@.skip(0) =~= directory@);
    }
    while k < n
        invariant
            n == directory@.len(),
            k <= n,
            lookup_spec(directory@, identifier@) == lookup_spec(
                directory@.skip(k as int),
                identifier@,
            ),
        decreases n - k,
    {
        let entry = &directory.entries[k];
        proof {
            assert(directory@.skip(k as int)[0] == directory@[k as int]);
        }
        if bytes_equal(&entry.name, identifier) {
            match &entry.content {
                Ok(text) => {
                    let t = crate::subst::copy_range(text, 0, text.len());
                    proof {
                        assert(text@.subrange(0, text@.len() as int) =~= text@);
                    }
                    return Ok(t);
                },
                Err(message) => {
                    return Err(LoadError::Io(message.clone()));
                },
            }
        }
        proof {
            assert(directory@.skip(k as int).drop_first() =~= directory@.skip(k + 1));
        }
        k += 1;
    }
    proof {
        assert(directory@.skip(n as int).len() == 0);
    }
    Err(LoadError::NotFound)
}

/// The path under which the loader's caller looks a content
/// identifier up on disk: `directory`, a slash, the identifier, and
/// the `.md` suffix.
pub open spec fn content_path_spec(directory: Seq<u8>, identifier: Seq<u8>) -> Seq<u8> {
    directory + seq![47u8] + identifier + seq![46u8, 109u8, 100u8]
}

/// Builds the path `<directory>/<identifier>.md`.
pub fn content_file_path(directory: &Vec<u8>, identifier: &Vec<u8>) -> (path: Vec<u8>)
    ensures
        path@ == content_path_spec(directory@, identifier@),
{
    let mut path = crate::subst::copy_range(directory, 0, directory.len());
    proof {
        assert(directory@.subrange(0, directory@.len() as int) =~= directory@);
    }
    path.push(47);
    crate::subst::append_bytes(&mut path, identifier);
    path.push(46);
    path.push(109);
    path.push(100);
    proof {
        assert(path@ =~= content_path_spec(directory@, identifier@));
    }
    path
}

} // verus!
