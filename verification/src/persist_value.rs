//! The on-disk layout of persisted values: where each key's file lives
//! and how a file's path reads back as a key. The file operations
//! themselves run outside this library.
use vstd::prelude::*;
use crate::trie::{Trie, KeyPath, get_answer, key_path};
use crate::text::{chars_of, substring};

verus! {

/// The text of the path `Path::join` makes of `base` and `tail`.
pub uninterp spec fn joined_path(base: Seq<char>, tail: Seq<char>) -> Seq<char>;

/// The text of what `Path::strip_prefix` leaves of `path` after `prefix`,
/// or `None` where `prefix` does not lead `path`.
pub uninterp spec fn relative_path(path: Seq<char>, prefix: Seq<char>) -> Option<Seq<char>>;

/// `Path::join` on paths given as text, its result read back as text (a
/// path made of UTF-8 parts reads back whole): the text `joined_path` names.
#[verifier::external_body]
fn path_join(base: &str, tail: &str) -> (r: String)
    ensures
        r@ == joined_path(base@, tail@),
{
    std::path::Path::new(base).join(tail).to_string_lossy().into_owned()
}

/// `Path::strip_prefix` on paths given as text, the rest read back as
/// text: what `relative_path` names, `None` where `prefix` does not lead
/// `path`.
#[verifier::external_body]
fn path_strip_prefix(path: &str, prefix: &str) -> (r: Option<String>)
    ensures
        match r {
            Some(t) => relative_path(path@, prefix@) == Some(t@),
            None => relative_path(path@, prefix@) is None,
        },
{
    std::path::Path::new(path).strip_prefix(prefix).ok().map(|p| p.to_string_lossy().into_owned())
}

/// `s` with every `from` replaced by `to`.
pub open spec fn replace_char(s: Seq<char>, from: char, to: char) -> Seq<char> {
    s.map_values(|c: char| if c == from { to } else { c })
}

pub open spec fn json_suffix() -> Seq<char> {
    seq!['.', 'j', 's', 'o', 'n']
}

/// The file name, relative to the digest directory, of `key`: segments
/// become directories and the file ends in `.json`.
pub open spec fn key_file(key: Seq<char>) -> Seq<char> {
    replace_char(key, '.', '/') + json_suffix()
}

pub open spec fn ends_with_json(s: Seq<char>) -> bool {
    s.len() >= 5 && s.skip(s.len() - 5) == json_suffix()
}

/// `s` with every trailing `.json` removed, as `trim_end_matches` does.
pub open spec fn trim_json(s: Seq<char>) -> Seq<char>
    decreases s.len(),
{
    if ends_with_json(s) {
        trim_json(s.take(s.len() - 5))
    } else {
        s
    }
}

/// The key a file's relative path stands for: without its trailing
/// `.json` endings and with directories read as segments; a path not ending
/// in `.json` stands for no key (the empty text).
pub open spec fn file_key(rel: Seq<char>) -> Seq<char> {
    if ends_with_json(rel) {
        replace_char(trim_json(rel), '/', '.')
    } else {
        Seq::<char>::empty()
    }
}

/// `s` with every `from` replaced by the one character of `to`.
fn replace_chars(s: &str, from: char, to: &str) -> (out: String)
    requires
        to@.len() == 1,
    ensures
        out@ == replace_char(s@, from, to@[0]),
{
    let ghost t = to@[0];
    let chars = chars_of(s);
    let n = chars.len();
    let mut out = String::new();
    let mut i: usize = 0;
    assert(s@.take(0).map_values(|c: char| if c == from { t } else { c }) =~= Seq::<char>::empty());
    while i < n
        invariant
            chars@ == s@,
            n == s@.len(),
            i <= n,
            to@ == seq![t],
            out@ == s@.take(i as int).map_values(|c: char| if c == from { t } else { c }),
        decreases n - i,
    {
        if chars[i] == from {
            out.append(to);
        } else {
            let piece = substring(s, i, i + 1);
            out.append(piece.as_str());
        }
        assert(s@.take(i + 1) =~= s@.take(i as int).push(s@[i as int]));
        assert(out@ =~= s@.take(i + 1).map_values(|c: char| if c == from { t } else { c }));
        i = i + 1;
    }
    assert(s@.take(n as int) =~= s@);
    out
}


/// Whether the first `end` characters of `chars` end in `.json`.
fn ends_with_json_at(chars: &Vec<char>, end: usize) -> (b: bool)
    requires
        end <= chars@.len(),
    ensures
        b == ends_with_json(chars@.take(end as int)),
{
    let ghost t = chars@.take(end as int);
    if end < 5 {
        return false;
    }
    let b = chars[end - 5] == '.' && chars[end - 4] == 'j' && chars[end - 3] == 's' && chars[end - 2] == 'o'
        && chars[end - 1] == 'n';
    proof {
        let tail = t.skip(t.len() - 5);
        if b {
            assert(tail =~= json_suffix());
        } else if tail == json_suffix() {
            assert(tail[0] == chars@[end - 5]);
            assert(tail[1] == chars@[end - 4]);
            assert(tail[2] == chars@[end - 3]);
            assert(tail[3] == chars@[end - 2]);
            assert(tail[4] == chars@[end - 1]);
        }
    }
    b
}

/// The key a file's relative path stands for (see `file_key`).
pub fn relative_path_to_key(rel: &str) -> (key: String)
    ensures
        key@ == file_key(rel@),
{
    let chars = chars_of(rel);
    let n = chars.len();
    if !ends_with_json_at(&chars, n) {
        assert(rel@.take(n as int) =~= rel@);
        return String::new();
    }
    assert(rel@.take(n as int) =~= rel@);
    let mut end = n;
    while ends_with_json_at(&chars, end)
        invariant
            chars@ == rel@,
            end <= n,
            n == rel@.len(),
            trim_json(rel@) == trim_json(rel@.take(end as int)),
        decreases end,
    {
        assert(rel@.take(end as int).take(end - 5) =~= rel@.take(end - 5));
        end = end - 5;
    }
    let kept = substring(rel, 0, end);
    assert(rel@.subrange(0, end as int) =~= rel@.take(end as int));
    proof {
        reveal_strlit(".");
    }
    replace_chars(kept.as_str(), '/', ".")
}

/// Law: a key without `/` reads back from its own file name.
pub proof fn law_key_file_roundtrip(key: Seq<char>)
    requires
        !key.contains('/'),
    ensures
        file_key(key_file(key)) == key,
{
    let f = key_file(key);
    let m = replace_char(key, '.', '/');
    assert(f.take(f.len() - 5) =~= m);
    assert(f.skip(f.len() - 5) =~= json_suffix());
    assert(!ends_with_json(m)) by {
        if ends_with_json(m) {
            assert(m[m.len() - 5] == '.');
            let c = key[m.len() - 5];
            assert(m[m.len() - 5] == if c == '.' { '/' } else { c });
        }
    }
    assert(trim_json(f) == trim_json(m));
    assert(replace_char(m, '/', '.') =~= key) by {
        assert forall|i: int| 0 <= i < key.len() implies replace_char(m, '/', '.')[i] == key[i] by {
            let c = key[i];
            if c == '/' {
                assert(key.contains('/'));
            }
        }
    }
}

/// The key the file at `path` stands for, read relative to `prefix`: the
/// key of the relative path (see `file_key`), empty where `prefix` does not
/// lead `path`.
pub open spec fn path_key(path: Seq<char>, prefix: Seq<char>) -> Seq<char> {
    match relative_path(path, prefix) {
        Some(t) => file_key(t),
        None => Seq::<char>::empty(),
    }
}

/// Law: a key without `/` reads back from the path of its file under any
/// directory `prefix` (`FileStorage::file_for` joined there, `path_to_key`
/// reads relative to it), wherever taking `prefix` off the joined path
/// leaves the file name that was joined.
pub proof fn law_file_path_reads_back_its_key(prefix: Seq<char>, key: Seq<char>)
    requires
        !key.contains('/'),
        relative_path(joined_path(prefix, key_file(key)), prefix) == Some(key_file(key)),
    ensures
        path_key(joined_path(prefix, key_file(key)), prefix) == key,
{
    law_key_file_roundtrip(key);
}

/// Where the files of persisted values live: under `root`, finished files
/// in `digest` and files being written in `ingest`, with the file recorded
/// for each key. Paths are held as text.
#[derive(Debug)]
pub struct FileStorage {
    root: String,
    ingest: String,
    digest: String,
    files: Trie<String>,
}

impl FileStorage {
    /// The files recorded so far, by key path.
    pub closed spec fn files(self) -> Map<KeyPath, Seq<char>> {
        self.files@.map_values(|p: String| p@)
    }

    pub closed spec fn root_dir(self) -> Seq<char> {
        self.root@
    }

    pub closed spec fn ingest_dir(self) -> Seq<char> {
        self.ingest@
    }

    pub closed spec fn digest_dir(self) -> Seq<char> {
        self.digest@
    }

    /// The layout under `root`, with no file recorded yet: `ingest` and
    /// `digest` are `root` joined with `ingest/` and `digest/`.
    pub fn layout(root: String) -> (fs: Self)
        ensures
            fs.root_dir() == root@,
            fs.ingest_dir() == joined_path(root@, "ingest/"@),
            fs.digest_dir() == joined_path(root@, "digest/"@),
            fs.files() == Map::<KeyPath, Seq<char>>::empty(),
    {
        let ingest = path_join(root.as_str(), "ingest/");
        let digest = path_join(root.as_str(), "digest/");
        let fs = FileStorage { root, ingest, digest, files: Trie::new() };
        assert(fs.files() =~= Map::<KeyPath, Seq<char>>::empty());
        fs
    }

    /// The file name, relative to the digest directory, for `key` (see
    /// `key_file`).
    pub fn key_to_path(key: &str) -> (p: String)
        ensures
            p@ == key_file(key@),
    {
        proof {
            reveal_strlit("/");
            reveal_strlit(".json");
        }
        let mut p = replace_chars(key, '.', "/");
        p.append(".json");
        assert(".json"@ == json_suffix());
        p
    }

    /// The key the file at `path` stands for, read relative to `prefix`
    /// (see `path_key`): the empty text when `prefix` does not lead `path`
    /// or the file does not end in `.json`.
    pub fn path_to_key(path: &str, prefix: &str) -> (key: String)
        ensures
            key@ == path_key(path@, prefix@),
    {
        match path_strip_prefix(path, prefix) {
            Some(rel) => relative_path_to_key(rel.as_str()),
            None => String::new(),
        }
    }

    pub fn root(&self) -> (r: &str)
        ensures
            r@ == self.root_dir(),
    {
        self.root.as_str()
    }

    pub fn ingest(&self) -> (r: &str)
        ensures
            r@ == self.ingest_dir(),
    {
        self.ingest.as_str()
    }

    pub fn digest(&self) -> (r: &str)
        ensures
            r@ == self.digest_dir(),
    {
        self.digest.as_str()
    }

    /// The path of the file that holds `key`: its `key_to_path` name joined
    /// to the digest directory.
    pub fn file_for(&self, key: &str) -> (p: String)
        ensures
            p@ == joined_path(self.digest_dir(), key_file(key@)),
    {
        let name = Self::key_to_path(key);
        path_join(self.digest.as_str(), name.as_str())
    }

    /// Records `path` as the file of `key` (a key holding `*` is not
    /// recorded).
    pub fn record(&mut self, key: &str, path: String)
        ensures
            final(self).files() == if key@.contains('*') {
                old(self).files()
            } else {
                old(self).files().insert(key_path(key@), path@)
            },
            final(self).root_dir() == old(self).root_dir(),
            final(self).ingest_dir() == old(self).ingest_dir(),
            final(self).digest_dir() == old(self).digest_dir(),
    {
        let ghost p = path@;
        let _ = self.files.insert(key, path);
        assert(self.files() =~= if key@.contains('*') {
            old(self).files()
        } else {
            old(self).files().insert(key_path(key@), p)
        });
    }

    /// Records a file found under the digest directory at start-up under
    /// the key its path stands for (see `path_key`, read relative to the
    /// digest directory), and returns that key. A path that stands for no
    /// key (the empty text), or for a key holding `*`, is not recorded.
    pub fn record_file(&mut self, path: String) -> (key: String)
        ensures
            key@ == path_key(path@, old(self).digest_dir()),
            final(self).files() == if key@.len() == 0 || key@.contains('*') {
                old(self).files()
            } else {
                old(self).files().insert(key_path(key@), path@)
            },
            final(self).root_dir() == old(self).root_dir(),
            final(self).ingest_dir() == old(self).ingest_dir(),
            final(self).digest_dir() == old(self).digest_dir(),
    {
        let key = Self::path_to_key(path.as_str(), self.digest.as_str());
        if key.as_str().is_empty() {
            return key;
        }
        self.record(key.as_str(), path);
        key
    }

    /// The files recorded for `key` (see `get_answer`).
    pub fn files_for(&self, key: &str) -> (r: Vec<&String>)
        ensures
            get_answer(self.files(), key@, r@.map_values(|p: &String| p@)),
    {
        let r = self.files.get(key);
        proof {
            crate::nkv::lemma_get_answer_map(self.files@, key@, r@.map_values(|p: &String| *p), |p: String| p@);
            assert(r@.map_values(|p: &String| *p).map_values(|p: String| p@) =~= r@.map_values(|p: &String| p@));
        }
        r
    }
}

} // verus!
