//! The derived state under `.git/annotations/`: for each edit ID the commit
//! that first added it, and for each source file the hash of the contents a
//! header was last written for. It can be deleted and rebuilt at any time.

use vstd::prelude::*;
use sha2::{Digest, Sha256};
use crate::edit_id::hex_digit;
use crate::error::display_path;
use crate::error::display_path_of;
use crate::time::Timestamp;

verus! {

/// The SHA-256 digest of `b`.
pub uninterp spec fn sha256_digest(b: Seq<u8>) -> Seq<u8>;

/// `Sha256::digest`, copied into a vector. Claimed: the result is the named
/// digest of the input, and it is 32 bytes long (the output size of SHA-256).
#[verifier::external_body]
fn sha256(bytes: &[u8]) -> (r: Vec<u8>)
    ensures
        r@ == sha256_digest(bytes@),
        r@.len() == 32,
{
    Sha256::digest(bytes).to_vec()
}

/// Each byte as two lower-case hexadecimal digits, high digit first.
pub open spec fn hex_text(b: Seq<u8>) -> Seq<char>
    decreases b.len(),
{
    if b.len() == 0 {
        seq![]
    } else {
        hex_text(b.drop_last()) + seq![
            hex_digit((b.last() / 16) as nat),
            hex_digit((b.last() % 16) as nat),
        ]
    }
}

/// Two hexadecimal digits per byte.
pub proof fn lemma_hex_text_len(b: Seq<u8>)
    ensures
        hex_text(b).len() == 2 * b.len(),
    decreases b.len(),
{
    if b.len() > 0 {
        lemma_hex_text_len(b.drop_last());
    }
}

/// The lower-case hexadecimal digit for `d < 16`.
fn hex_char(d: u8) -> (c: char)
    requires
        d < 16,
    ensures
        c == hex_digit(d as nat),
{
    if d < 10 {
        (d + 48) as char
    } else {
        (d + 87) as char
    }
}

/// The SHA-256 digest of `bytes` in lower-case hexadecimal.
pub fn hash(bytes: &[u8]) -> (s: String)
    ensures
        s@ == hex_text(sha256_digest(bytes@)),
        s@.len() == 64,
{
    let digest = sha256(bytes);
    let mut out: Vec<char> = Vec::new();
    let mut i: usize = 0;
    proof {
        assert(digest@.take(0) =~= Seq::<u8>::empty());
    }
    while i < digest.len()
        invariant
            i <= digest@.len(),
            out@ == hex_text(digest@.take(i as int)),
        decreases digest@.len() - i,
    {
        let b = digest[i];
        out.push(hex_char(b / 16));
        out.push(hex_char(b % 16));
        proof {
            assert(digest@.take(i + 1).drop_last() =~= digest@.take(i as int));
            assert(digest@.take(i + 1).last() == b);
            assert(out@ =~= hex_text(digest@.take(i + 1)));
        }
        i = i + 1;
    }
    proof {
        assert(digest@.take(digest@.len() as int) =~= digest@);
        lemma_hex_text_len(digest@);
    }
    crate::text::string_of(&out)
}

/// What is known of a source file: the hash of the contents its gloss header
/// was last written for, and that header's `updated` instant.
#[derive(Debug)]
pub struct FileState {
    pub source_hash: String,
    pub header_updated: Timestamp,
}

pub struct FileStateView {
    pub source_hash: Seq<char>,
    pub header_updated: Timestamp,
}

impl View for FileState {
    type V = FileStateView;

    open spec fn view(&self) -> FileStateView {
        FileStateView { source_hash: self.source_hash@, header_updated: self.header_updated }
    }
}

/// The derived state, as two maps with distinct keys: edit ID to commit, and
/// source path (with `/` separators) to its file state.
#[derive(Debug)]
pub struct DerivedState {
    pub edits: Vec<(String, String)>,
    pub files: Vec<(String, FileState)>,
}

pub struct StateView {
    pub edits: Map<Seq<char>, Seq<char>>,
    pub files: Map<Seq<char>, FileStateView>,
}

/// The map that pairs with distinct keys stand for.
pub open spec fn pairs_map(v: Seq<(String, String)>) -> Map<Seq<char>, Seq<char>> {
    Map::new(
        |k: Seq<char>| exists|i: int| 0 <= i < v.len() && v[i].0@ == k,
        |k: Seq<char>| v[choose|i: int| 0 <= i < v.len() && v[i].0@ == k].1@,
    )
}

pub open spec fn files_map(v: Seq<(String, FileState)>) -> Map<Seq<char>, FileStateView> {
    Map::new(
        |k: Seq<char>| exists|i: int| 0 <= i < v.len() && v[i].0@ == k,
        |k: Seq<char>| v[choose|i: int| 0 <= i < v.len() && v[i].0@ == k].1@,
    )
}

pub open spec fn distinct_keys<T>(v: Seq<(String, T)>) -> bool {
    forall|i: int, j: int| 0 <= i < j < v.len() ==> (#[trigger] v[i]).0@ != (#[trigger] v[j]).0@
}

impl View for DerivedState {
    type V = StateView;

    open spec fn view(&self) -> StateView {
        StateView { edits: pairs_map(self.edits@), files: files_map(self.files@) }
    }
}

/// The key under which a source path is stored.
pub open spec fn state_key(relative: Seq<char>) -> Seq<char> {
    display_path(relative)
}

/// The file state stored for a source path, if any.
pub open spec fn file_entry(s: StateView, relative: Seq<char>) -> Option<FileStateView> {
    if s.files.contains_key(state_key(relative)) {
        Some(s.files[state_key(relative)])
    } else {
        None
    }
}

/// The state after recording that a header written at `updated` describes
/// the source contents `source`.
pub open spec fn record_file_spec(
    s: StateView,
    relative: Seq<char>,
    source: Seq<u8>,
    updated: Timestamp,
) -> StateView {
    StateView {
        files: s.files.insert(
            state_key(relative),
            FileStateView {
                source_hash: hex_text(sha256_digest(source)),
                header_updated: updated,
            },
        ),
        ..s
    }
}

/// The state after forgetting a source path.
pub open spec fn remove_file_spec(s: StateView, relative: Seq<char>) -> StateView {
    StateView { files: s.files.remove(state_key(relative)), ..s }
}

/// What `record_file` stores, `file` reads back; other paths keep their entries.
pub proof fn lemma_record_file_then_file(
    s: StateView,
    relative: Seq<char>,
    other: Seq<char>,
    source: Seq<u8>,
    updated: Timestamp,
)
    ensures
        file_entry(record_file_spec(s, relative, source, updated), relative) == Some(
            FileStateView { source_hash: hex_text(sha256_digest(source)), header_updated: updated },
        ),
        state_key(other) != state_key(relative) ==> file_entry(
            record_file_spec(s, relative, source, updated),
            other,
        ) == file_entry(s, other),
{
}

/// After `remove_file`, `file` finds nothing for that path; other paths keep
/// their entries.
pub proof fn lemma_remove_file_then_file(s: StateView, relative: Seq<char>, other: Seq<char>)
    ensures
        file_entry(remove_file_spec(s, relative), relative) is None,
        state_key(other) != state_key(relative) ==> file_entry(
            remove_file_spec(s, relative),
            other,
        ) == file_entry(s, other),
{
}

proof fn lemma_files_map_at(v: Seq<(String, FileState)>, i: int)
    requires
        distinct_keys(v),
        0 <= i < v.len(),
    ensures
        files_map(v).contains_key(v[i].0@),
        files_map(v)[v[i].0@] == v[i].1@,
{
    let k = v[i].0@;
    assert(exists|j: int| 0 <= j < v.len() && v[j].0@ == k);
    let j = choose|j: int| 0 <= j < v.len() && v[j].0@ == k;
    if j != i {
        if j < i {
            assert(v[j].0@ != v[i].0@);
        } else {
            assert(v[i].0@ != v[j].0@);
        }
    }
}

/// Index of the entry for `key`, if any.
fn find_file(files: &Vec<(String, FileState)>, key: &str) -> (r: Option<usize>)
    ensures
        match r {
            Some(i) => i < files@.len() && files@[i as int].0@ == key@,
            None => forall|i: int| 0 <= i < files@.len() ==> files@[i].0@ != key@,
        },
{
    let kc = crate::text::chars_of(key);
    let mut i: usize = 0;
    while i < files.len()
        invariant
            kc@ == key@,
            i <= files@.len(),
            forall|j: int| 0 <= j < i ==> files@[j].0@ != key@,
        decreases files@.len() - i,
    {
        if crate::text::eq_chars(&crate::text::chars_of(files[i].0.as_str()), &kc) {
            return Some(i);
        }
        i = i + 1;
    }
    None
}

impl DerivedState {
    /// Whether no key occurs twice.
    pub open spec fn wf(&self) -> bool {
        distinct_keys(self.edits@) && distinct_keys(self.files@)
    }

    /// The empty state.
    pub fn empty() -> (s: DerivedState)
        ensures
            s.wf(),
            s@.edits == Map::<Seq<char>, Seq<char>>::empty(),
            s@.files == Map::<Seq<char>, FileStateView>::empty(),
    {
        let s = DerivedState { edits: Vec::new(), files: Vec::new() };
        proof {
            assert(s@.edits =~= Map::<Seq<char>, Seq<char>>::empty());
            assert(s@.files =~= Map::<Seq<char>, FileStateView>::empty());
        }
        s
    }

    /// The state recorded for a source path.
    pub fn file(&self, relative: &str) -> (r: Option<&FileState>)
        requires
            self.wf(),
        ensures
            match r {
                Some(f) => file_entry(self@, relative@) == Some(f@),
                None => file_entry(self@, relative@) is None,
            },
    {
        let key = display_path_of(relative);
        match find_file(&self.files, key.as_str()) {
            Some(i) => {
                proof {
                    lemma_files_map_at(self.files@, i as int);
                }
                Some(&self.files[i].1)
            },
            None => None,
        }
    }

    /// Records that the header written at `updated` describes the source
    /// contents `source`.
    pub fn record_file(&mut self, relative: &str, source: &[u8], updated: Timestamp)
        requires
            old(self).wf(),
        ensures
            final(self).wf(),
            final(self)@ == record_file_spec(old(self)@, relative@, source@, updated),
    {
        let key = display_path_of(relative);
        let entry = FileState { source_hash: hash(source), header_updated: updated };
        let ghost ev = entry@;
        let ghost old_files = self.files@;
        match find_file(&self.files, key.as_str()) {
            Some(i) => {
                self.files.set(i, (key, entry));
                proof {
                    let v = self.files@;
                    assert forall|a: int, b: int| 0 <= a < b < v.len() implies (#[trigger] v[a]).0@
                        != (#[trigger] v[b]).0@ by {
                        if a != i && b != i {
                            assert(v[a] == old_files[a] && v[b] == old_files[b]);
                        } else if a == i {
                            assert(v[b] == old_files[b]);
                            assert(old_files[i as int].0@ != old_files[b].0@);
                        } else {
                            assert(v[a] == old_files[a]);
                            assert(old_files[a].0@ != old_files[i as int].0@);
                        }
                    }
                    assert forall|k: Seq<char>| #[trigger] files_map(v).contains_key(k)
                        == old(self)@.files.insert(key@, ev).contains_key(k) by {
                        if k == key@ {
                            assert(v[i as int].0@ == k);
                        } else if files_map(v).contains_key(k) {
                            let j = choose|j: int| 0 <= j < v.len() && v[j].0@ == k;
                            assert(old_files[j] == v[j]);
                        } else if files_map(old_files).contains_key(k) {
                            let j = choose|j: int| 0 <= j < old_files.len() && old_files[j].0@ == k;
                            assert(old_files[j] == v[j]);
                        }
                    }
                    assert forall|k: Seq<char>| #[trigger] files_map(v).contains_key(k) implies
                        files_map(v)[k] == old(self)@.files.insert(key@, ev)[k] by {
                        let j = choose|j: int| 0 <= j < v.len() && v[j].0@ == k;
                        lemma_files_map_at(v, j);
                        if k != key@ {
                            assert(old_files[j] == v[j]);
                            lemma_files_map_at(old_files, j);
                        }
                    }
                    assert(files_map(v) =~= old(self)@.files.insert(key@, ev));
                }
            },
            None => {
                self.files.push((key, entry));
                proof {
                    let v = self.files@;
                    let n = old_files.len() as int;
                    assert forall|a: int, b: int| 0 <= a < b < v.len() implies (#[trigger] v[a]).0@
                        != (#[trigger] v[b]).0@ by {
                        assert(v[a] == old_files[a]);
                        if b < n {
                            assert(v[b] == old_files[b]);
                        }
                    }
                    assert forall|k: Seq<char>| #[trigger] files_map(v).contains_key(k)
                        == old(self)@.files.insert(key@, ev).contains_key(k) by {
                        if k == key@ {
                            assert(v[n].0@ == k);
                        } else if files_map(v).contains_key(k) {
                            let j = choose|j: int| 0 <= j < v.len() && v[j].0@ == k;
                            assert(old_files[j] == v[j]);
                        } else if files_map(old_files).contains_key(k) {
                            let j = choose|j: int| 0 <= j < old_files.len() && old_files[j].0@ == k;
                            assert(old_files[j] == v[j]);
                        }
                    }
                    assert forall|k: Seq<char>| #[trigger] files_map(v).contains_key(k) implies
                        files_map(v)[k] == old(self)@.files.insert(key@, ev)[k] by {
                        let j = choose|j: int| 0 <= j < v.len() && v[j].0@ == k;
                        lemma_files_map_at(v, j);
                        if k != key@ {
                            assert(old_files[j] == v[j]);
                            lemma_files_map_at(old_files, j);
                        }
                    }
                    assert(files_map(v) =~= old(self)@.files.insert(key@, ev));
                }
            },
        }
    }

    /// Forgets a source path.
    pub fn remove_file(&mut self, relative: &str)
        requires
            old(self).wf(),
        ensures
            final(self).wf(),
            final(self)@ == remove_file_spec(old(self)@, relative@),
    {
        let key = display_path_of(relative);
        let ghost old_files = self.files@;
        match find_file(&self.files, key.as_str()) {
            Some(i) => {
                self.files.remove(i);
                proof {
                    let v = self.files@;
                    assert forall|j: int| 0 <= j < v.len() implies #[trigger] v[j] == (if j < i {
                        old_files[j]
                    } else {
                        old_files[j + 1]
                    }) by {}
                    assert forall|a: int, b: int| 0 <= a < b < v.len() implies (#[trigger] v[a]).0@
                        != (#[trigger] v[b]).0@ by {
                        let a2 = if a < i { a } else { a + 1 };
                        let b2 = if b < i { b } else { b + 1 };
                        assert(v[a] == old_files[a2]);
                        assert(v[b] == old_files[b2]);
                    }
                    assert forall|k: Seq<char>| #[trigger] files_map(v).contains_key(k)
                        == old(self)@.files.remove(key@).contains_key(k) by {
                        if files_map(v).contains_key(k) {
                            let j = choose|j: int| 0 <= j < v.len() && v[j].0@ == k;
                            let j2 = if j < i { j } else { j + 1 };
                            assert(v[j] == old_files[j2]);
                            if k == key@ {
                                if j2 < i {
                                    assert(old_files[j2].0@ != old_files[i as int].0@);
                                } else {
                                    assert(old_files[i as int].0@ != old_files[j2].0@);
                                }
                            }
                        } else if k != key@ && files_map(old_files).contains_key(k) {
                            let j = choose|j: int| 0 <= j < old_files.len() && old_files[j].0@ == k;
                            assert(j != i);
                            let j2 = if j < i { j } else { j - 1 };
                            assert(v[j2] == old_files[j]);
                        }
                    }
                    assert forall|k: Seq<char>| #[trigger] files_map(v).contains_key(k) implies
                        files_map(v)[k] == old(self)@.files.remove(key@)[k] by {
                        let j = choose|j: int| 0 <= j < v.len() && v[j].0@ == k;
                        lemma_files_map_at(v, j);
                        let j2 = if j < i { j } else { j + 1 };
                        assert(v[j] == old_files[j2]);
                        lemma_files_map_at(old_files, j2);
                    }
                    assert(files_map(v) =~= old(self)@.files.remove(key@));
                }
            },
            None => {
                proof {
                    assert forall|k: Seq<char>| #[trigger] files_map(old_files).contains_key(k)
                        implies k != key@ by {}
                    assert(files_map(old_files) =~= old(self)@.files.remove(key@));
                }
            },
        }
    }
}

} // verus!
