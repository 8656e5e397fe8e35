//! Filesystem helpers over an abstract virtual filesystem: lexical path
//! cleaning, the filesystem interface and an in-memory implementation,
//! directory creation, whiteout files, and recursive listing.

use vstd::prelude::*;
use crate::text::{
    str_chars, chars_to_string, chars_eq, split_char, split_chars, push_str_chars,
};

verus! {

/// Failure of a filesystem operation.
#[derive(Debug, Clone, Copy, PartialEq, Eq)]
pub enum FsError {
    AlreadyExists,
    BaseNotDirectory,
    EntryNotFound,
    InvalidInput,
}

/// Walks the path components: empty components and `.` vanish, `..`
/// removes the preceding component and is invalid with none left, any
/// other component is kept.
pub open spec fn clean_fold(comps: Seq<Seq<char>>, i: int, stack: Seq<Seq<char>>) -> Option<
    Seq<Seq<char>>,
>
    decreases comps.len() - i,
{
    if i < 0 || i >= comps.len() {
        Some(stack)
    } else {
        let c = comps[i];
        if c.len() == 0 || c == seq!['.'] {
            clean_fold(comps, i + 1, stack)
        } else if c == seq!['.', '.'] {
            if stack.len() == 0 {
                None
            } else {
                clean_fold(comps, i + 1, stack.drop_last())
            }
        } else {
            clean_fold(comps, i + 1, stack.push(c))
        }
    }
}

/// Components joined with `/`.
pub open spec fn join_slash(parts: Seq<Seq<char>>) -> Seq<char>
    decreases parts.len(),
{
    if parts.len() == 0 {
        Seq::<char>::empty()
    } else if parts.len() == 1 {
        parts[0]
    } else {
        join_slash(parts.drop_last()) + seq!['/'] + parts[parts.len() - 1]
    }
}

/// The lexical cleaning of a path: split on `/`, fold the components,
/// and join what remains; an emptied path is the current directory `.`.
/// `None` means the path climbs above its start and is invalid.
pub open spec fn clean_path(s: Seq<char>) -> Option<Seq<char>> {
    match clean_fold(split_char(s, '/'), 0, Seq::<Seq<char>>::empty()) {
        None => None,
        Some(stack) => if stack.len() == 0 {
            Some(seq!['.'])
        } else {
            Some(join_slash(stack))
        },
    }
}

/// Whether a component is `.`.
fn is_dot(c: &Vec<char>) -> (r: bool)
    ensures
        r == (c@ == seq!['.']),
{
    let r = c.len() == 1 && c[0] == '.';
    proof {
        if r {
            assert(c@ =~= seq!['.']);
        } else {
            if c@ == seq!['.'] {
                assert(c@.len() == 1 && c@[0] == '.');
            }
        }
    }
    r
}

/// Whether a component is `..`.
fn is_dotdot(c: &Vec<char>) -> (r: bool)
    ensures
        r == (c@ == seq!['.', '.']),
{
    let r = c.len() == 2 && c[0] == '.' && c[1] == '.';
    proof {
        if r {
            assert(c@ =~= seq!['.', '.']);
        } else {
            if c@ == seq!['.', '.'] {
                assert(c@.len() == 2 && c@[0] == '.' && c@[1] == '.');
            }
        }
    }
    r
}

/// Cleans a path lexically: collapses repeated slashes, removes `.`
/// components, resolves `..` against the preceding component, and
/// drops a leading root. A path that climbs above its start is
/// rejected as invalid input; a path that empties out is the current
/// directory `.`.
pub fn clean_safely(path: &str) -> (r: Result<String, FsError>)
    ensures
        match clean_path(path@) {
            Some(c) => r matches Ok(p) && p@ == c,
            None => r matches Err(FsError::InvalidInput),
        },
{
    let chars = str_chars(path);
    let comps = split_chars(&chars, '/');
    let ghost cv = comps.deep_view();
    let mut stack: Vec<Vec<char>> = Vec::new();
    proof {
        assert(stack.deep_view() =~= Seq::<Seq<char>>::empty());
    }
    let mut i: usize = 0;
    while i < comps.len()
        invariant
            cv == comps.deep_view(),
            cv == split_char(path@, '/'),
            i <= cv.len(),
            clean_fold(cv, 0, Seq::<Seq<char>>::empty()) == clean_fold(
                cv,
                i as int,
                stack.deep_view(),
            ),
        decreases comps.len() - i,
    {
        proof {
            assert(cv[i as int] == comps@[i as int]@);
        }
        let c = &comps[i];
        if c.len() == 0 || is_dot(c) {
        } else if is_dotdot(c) {
            if stack.len() == 0 {
                proof {
                    assert(stack.deep_view().len() == 0);
                    assert(cv[i as int] == seq!['.', '.']);
                    assert(clean_fold(cv, i as int, stack.deep_view()) is None);
                    assert(clean_path(path@) is None);
                }
                return Err(FsError::InvalidInput);
            }
            let ghost prevs = stack@;
            let ghost prevd = stack.deep_view();
            let _ = stack.pop();
            proof {
                assert(stack@ == prevs.drop_last());
                assert forall|y: int|
                    0 <= y < stack.deep_view().len() implies #[trigger] stack.deep_view()[y]
                    == prevd.drop_last()[y] by {
                    assert(stack@[y] == prevs[y]);
                    assert(stack.deep_view()[y] == stack@[y].deep_view());
                    assert(prevd[y] == prevs[y].deep_view());
                }
                assert(stack.deep_view() =~= prevd.drop_last());
            }
        } else {
            let ghost prevs = stack@;
            let ghost prevd = stack.deep_view();
            let piece = crate::text::vec_slice(c, 0, c.len());
            let ghost pv = piece@;
            proof {
                assert(pv =~= cv[i as int]);
            }
            stack.push(piece);
            proof {
                assert(stack@[stack@.len() - 1]@ == pv);
                assert forall|y: int|
                    0 <= y < stack.deep_view().len() implies #[trigger] stack.deep_view()[y]
                    == prevd.push(pv)[y] by {
                    if y < prevd.len() {
                        assert(stack@[y] == prevs[y]);
                        assert(stack.deep_view()[y] == stack@[y].deep_view());
                        assert(prevd[y] == prevs[y].deep_view());
                    } else {
                        assert(stack.deep_view()[y] == stack@[y].deep_view());
                    }
                }
                assert(stack.deep_view() =~= prevd.push(pv));
            }
        }
        i = i + 1;
    }
    let ghost finald = stack.deep_view();
    proof {
        assert(clean_fold(cv, cv.len() as int, finald) == Some(finald));
    }
    if stack.len() == 0 {
        let mut out: Vec<char> = Vec::new();
        out.push('.');
        proof {
            assert(out@ =~= seq!['.']);
            assert(finald.len() == 0);
            assert(clean_path(path@) == Some(seq!['.']));
        }
        return Ok(chars_to_string(&out));
    }
    let mut out: Vec<char> = Vec::new();
    let mut j: usize = 0;
    while j < stack.len()
        invariant
            finald == stack.deep_view(),
            0 < stack.deep_view().len(),
            j <= stack.deep_view().len(),
            j > 0 ==> out@ == join_slash(finald.subrange(0, j as int)),
            j == 0 ==> out@ == Seq::<char>::empty(),
        decreases stack.len() - j,
    {
        if j > 0 {
            out.push('/');
        }
        proof {
            assert(finald[j as int] == stack@[j as int]@);
        }
        let piece = &stack[j];
        let mut x: usize = 0;
        let ghost outbase = out@;
        while x < piece.len()
            invariant
                x <= piece@.len(),
                out@ == outbase + piece@.subrange(0, x as int),
            decreases piece.len() - x,
        {
            out.push(piece[x]);
            x = x + 1;
            proof {
                assert(out@ =~= outbase + piece@.subrange(0, x as int));
            }
        }
        j = j + 1;
        proof {
            assert(piece@.subrange(0, piece@.len() as int) =~= piece@);
            let pre = finald.subrange(0, j as int);
            assert(pre[pre.len() - 1] == finald[j - 1]);
            assert(pre.drop_last() =~= finald.subrange(0, j - 1));
            if j > 1 {
                assert(out@ =~= join_slash(pre));
            } else {
                assert(pre.len() == 1);
                assert(out@ =~= join_slash(pre));
            }
        }
    }
    proof {
        assert(finald.subrange(0, finald.len() as int) =~= finald);
        assert(out@ == join_slash(finald));
        assert(clean_path(path@) == Some(join_slash(finald)));
    }
    Ok(chars_to_string(&out))
}

/// Lexical path cleaning offered as a method.
pub trait PathClean {
    /// The characters of the path.
    spec fn path_chars(&self) -> Seq<char>;

    /// The path cleaned lexically, as [`clean_safely`] cleans it.
    fn clean_safely(&self) -> (r: Result<String, FsError>)
        ensures
            (match clean_path(self.path_chars()) {
                Some(c) => r matches Ok(p) && p@ == c,
                None => r matches Err(FsError::InvalidInput),
            }),
    ;
}

impl PathClean for str {
    open spec fn path_chars(&self) -> Seq<char> {
        self@
    }

    fn clean_safely(&self) -> (r: Result<String, FsError>) {
        clean_safely(self)
    }
}

impl PathClean for String {
    open spec fn path_chars(&self) -> Seq<char> {
        self@
    }

    fn clean_safely(&self) -> (r: Result<String, FsError>) {
        clean_safely(self.as_str())
    }
}

} // verus!
// The module continues: the filesystem interface and its operations.

verus! {

/// What a filesystem entry is.
#[derive(Debug, Clone, Copy, PartialEq, Eq)]
pub enum FileKind {
    File,
    Directory,
}

/// What `metadata` reports of an entry.
#[derive(Debug, Clone, Copy, PartialEq, Eq)]
pub struct Metadata {
    pub kind: FileKind,
}

impl Metadata {
    /// Whether the entry is a directory.
    pub fn is_dir(&self) -> (r: bool)
        ensures
            r == (self.kind is Directory),
    {
        match self.kind {
            FileKind::Directory => true,
            FileKind::File => false,
        }
    }

    /// Whether the entry is a file.
    pub fn is_file(&self) -> (r: bool)
        ensures
            r == (self.kind is File),
    {
        match self.kind {
            FileKind::File => true,
            FileKind::Directory => false,
        }
    }
}

/// One listed entry: its key (the cleaned path components) and kind.
#[derive(Debug, PartialEq, Eq)]
pub struct DirEntry {
    pub path: Vec<String>,
    pub kind: FileKind,
}

/// The key of a path: its cleaned components. The root is the empty
/// key.
pub open spec fn path_key(s: Seq<char>) -> Option<Seq<Seq<char>>> {
    clean_fold(split_char(s, '/'), 0, Seq::<Seq<char>>::empty())
}

/// The components of a path after cleaning; the root cleans to no
/// components.
pub fn clean_components(path: &str) -> (r: Result<Vec<String>, FsError>)
    ensures
        match path_key(path@) {
            Some(k) => r matches Ok(v) && v.deep_view() == k,
            None => r matches Err(FsError::InvalidInput),
        },
{
    let chars = str_chars(path);
    let comps = split_chars(&chars, '/');
    let ghost cv = comps.deep_view();
    let mut stack: Vec<String> = Vec::new();
    proof {
        assert(stack.deep_view() =~= Seq::<Seq<char>>::empty());
    }
    let mut i: usize = 0;
    while i < comps.len()
        invariant
            cv == comps.deep_view(),
            cv == split_char(path@, '/'),
            i <= cv.len(),
            clean_fold(cv, 0, Seq::<Seq<char>>::empty()) == clean_fold(
                cv,
                i as int,
                stack.deep_view(),
            ),
        decreases comps.len() - i,
    {
        proof {
            assert(cv[i as int] == comps@[i as int]@);
        }
        let c = &comps[i];
        if c.len() == 0 || is_dot(c) {
        } else if is_dotdot(c) {
            if stack.len() == 0 {
                proof {
                    assert(stack.deep_view().len() == 0);
                    assert(cv[i as int] == seq!['.', '.']);
                    assert(clean_fold(cv, i as int, stack.deep_view()) is None);
                }
                return Err(FsError::InvalidInput);
            }
            let ghost prevs = stack@;
            let ghost prevd = stack.deep_view();
            let _ = stack.pop();
            proof {
                assert(stack@ == prevs.drop_last());
                assert forall|y: int|
                    0 <= y < stack.deep_view().len() implies #[trigger] stack.deep_view()[y]
                    == prevd.drop_last()[y] by {
                    assert(stack@[y] == prevs[y]);
                    assert(stack.deep_view()[y] == stack@[y].deep_view());
                    assert(prevd[y] == prevs[y].deep_view());
                }
                assert(stack.deep_view() =~= prevd.drop_last());
            }
        } else {
            let ghost prevs = stack@;
            let ghost prevd = stack.deep_view();
            let piece = chars_to_string(c);
            let ghost pv = piece@;
            proof {
                assert(pv =~= cv[i as int]);
            }
            stack.push(piece);
            proof {
                assert(stack@[stack@.len() - 1]@ == pv);
                assert forall|y: int|
                    0 <= y < stack.deep_view().len() implies #[trigger] stack.deep_view()[y]
                    == prevd.push(pv)[y] by {
                    if y < prevd.len() {
                        assert(stack@[y] == prevs[y]);
                        assert(stack.deep_view()[y] == stack@[y].deep_view());
                        assert(prevd[y] == prevs[y].deep_view());
                    } else {
                        assert(stack.deep_view()[y] == stack@[y].deep_view());
                    }
                }
                assert(stack.deep_view() =~= prevd.push(pv));
            }
        }
        i = i + 1;
    }
    Ok(stack)
}

/// Filesystems a runtime can mount: entries keyed by cleaned path
/// components, with the root directory as the empty key.
pub trait FileSystem {
    /// The contents: each entry's key to its kind. The root is
    /// implicit.
    spec fn fs_model(&self) -> Map<Seq<Seq<char>>, FileKind>;

    /// The implementation's well-formedness.
    spec fn fs_inv(&self) -> bool;

    /// The kind filed under a key; the root is always a directory.
    fn metadata_key(&self, key: &Vec<String>) -> (r: Option<Metadata>)
        requires
            self.fs_inv(),
        ensures
            (if key.deep_view().len() == 0 {
                r matches Some(m) && m.kind is Directory
            } else if self.fs_model().contains_key(key.deep_view()) {
                r matches Some(m) && m.kind == self.fs_model()[key.deep_view()]
            } else {
                r is None
            }),
    ;

    /// Creates a directory at a key whose parent is a directory.
    fn create_dir_key(&mut self, key: &Vec<String>) -> (r: Result<(), FsError>)
        requires
            old(self).fs_inv(),
        ensures
            final(self).fs_inv(),
            ({
                let k = key.deep_view();
                let m = old(self).fs_model();
                if k.len() == 0 || m.contains_key(k) {
                    r matches Err(FsError::AlreadyExists) && final(self).fs_model() == m
                } else if k.len() > 1 && !m.contains_key(k.drop_last()) {
                    r matches Err(FsError::EntryNotFound) && final(self).fs_model() == m
                } else if k.len() > 1 && m[k.drop_last()] is File {
                    r matches Err(FsError::BaseNotDirectory) && final(self).fs_model() == m
                } else {
                    r matches Ok(u) && final(self).fs_model() == m.insert(
                        k,
                        FileKind::Directory,
                    )
                }
            }),
    ;

    /// Creates or opens a file at a key whose parent is a directory;
    /// with `exclusive` an existing file is an error.
    fn create_file_key(&mut self, key: &Vec<String>, exclusive: bool) -> (r: Result<
        (),
        FsError,
    >)
        requires
            old(self).fs_inv(),
        ensures
            final(self).fs_inv(),
            ({
                let k = key.deep_view();
                let m = old(self).fs_model();
                if k.len() == 0 {
                    r is Err && final(self).fs_model() == m
                } else if m.contains_key(k) && m[k] is Directory {
                    r matches Err(FsError::BaseNotDirectory) && final(self).fs_model() == m
                } else if m.contains_key(k) {
                    if exclusive {
                        r matches Err(FsError::AlreadyExists) && final(self).fs_model() == m
                    } else {
                        r matches Ok(u) && final(self).fs_model() == m
                    }
                } else if k.len() > 1 && !m.contains_key(k.drop_last()) {
                    r matches Err(FsError::EntryNotFound) && final(self).fs_model() == m
                } else if k.len() > 1 && m[k.drop_last()] is File {
                    r matches Err(FsError::BaseNotDirectory) && final(self).fs_model() == m
                } else {
                    r matches Ok(u) && final(self).fs_model() == m.insert(k, FileKind::File)
                }
            }),
    ;

    /// Removes the file at a key.
    fn remove_file_key(&mut self, key: &Vec<String>) -> (r: Result<(), FsError>)
        requires
            old(self).fs_inv(),
        ensures
            final(self).fs_inv(),
            ({
                let k = key.deep_view();
                let m = old(self).fs_model();
                if m.contains_key(k) && m[k] is File {
                    r matches Ok(u) && final(self).fs_model() == m.remove(k)
                } else {
                    r is Err && final(self).fs_model() == m
                }
            }),
    ;

    /// The entries directly under a directory key.
    fn read_dir_key(&self, key: &Vec<String>) -> (r: Result<Vec<DirEntry>, FsError>)
        requires
            self.fs_inv(),
        ensures
            ({
                let k = key.deep_view();
                let m = self.fs_model();
                if k.len() == 0 || (m.contains_key(k) && m[k] is Directory) {
                    r matches Ok(entries) && (forall|i: int|
                        0 <= i < entries.len() ==> {
                            let p = (#[trigger] entries[i]).path.deep_view();
                            &&& m.contains_key(p)
                            &&& m[p] == entries[i].kind
                            &&& p.len() == k.len() + 1
                            &&& p.drop_last() == k
                        }) && (forall|p: Seq<Seq<char>>|
                        #[trigger] m.contains_key(p) && p.len() == k.len() + 1 && p.drop_last()
                            == k ==> exists|i: int|
                            0 <= i < entries.len() && (#[trigger] entries[i]).path.deep_view()
                                == p) && (forall|i: int, j: int|
                        0 <= i < j < entries.len() ==> (#[trigger] entries[i]).path.deep_view()
                            != (#[trigger] entries[j]).path.deep_view())
                } else {
                    r is Err
                }
            }),
    ;
}

} // verus!
// The module continues: the in-memory filesystem.

verus! {

/// One stored entry of the in-memory filesystem.
#[derive(Debug, PartialEq, Eq)]
pub struct MemEntry {
    pub path: Vec<String>,
    pub kind: FileKind,
}

/// The key of the stored entry at `i`.
pub open spec fn entry_key(es: Seq<MemEntry>, i: int) -> Seq<Seq<char>> {
    es[i].path.deep_view()
}

/// The contents map of an entry list.
pub open spec fn seq_model(es: Seq<MemEntry>) -> Map<Seq<Seq<char>>, FileKind> {
    Map::new(
        |k: Seq<Seq<char>>| exists|i: int| 0 <= i < es.len() && #[trigger] entry_key(es, i) == k,
        |k: Seq<Seq<char>>| es[choose|i: int|
            0 <= i < es.len() && #[trigger] entry_key(es, i) == k].kind,
    )
}

/// Distinct keys, no root entry, and every longer key's parent stored
/// as a directory.
pub open spec fn seq_inv(es: Seq<MemEntry>) -> bool {
    &&& forall|i: int, j: int| 0 <= i < j < es.len() ==> entry_key(es, i) != entry_key(es, j)
    &&& forall|i: int| 0 <= i < es.len() ==> (#[trigger] entry_key(es, i)).len() > 0
    &&& forall|i: int|
        0 <= i < es.len() && (#[trigger] entry_key(es, i)).len() > 1 ==> exists|j: int|
            0 <= j < es.len() && #[trigger] entry_key(es, j) == entry_key(es, i).drop_last()
                && es[j].kind is Directory
}

/// Distinct keys make the model's chosen index unique.
proof fn lemma_mem_choice(es: Seq<MemEntry>, i: int)
    requires
        forall|a: int, b: int| 0 <= a < b < es.len() ==> entry_key(es, a) != entry_key(es, b),
        0 <= i < es.len(),
    ensures
        seq_model(es).contains_key(entry_key(es, i)),
        seq_model(es)[entry_key(es, i)] == es[i].kind,
{
    let k = entry_key(es, i);
    assert(seq_model(es).contains_key(k));
    let c = choose|c: int| 0 <= c < es.len() && #[trigger] entry_key(es, c) == k;
    if c != i {
        if c < i {
            assert(entry_key(es, c) != entry_key(es, i));
        } else {
            assert(entry_key(es, i) != entry_key(es, c));
        }
    }
}

/// Appending an entry of a fresh key inserts it into the model.
proof fn lemma_mem_insert(es: Seq<MemEntry>, e: MemEntry)
    requires
        forall|a: int, b: int| 0 <= a < b < es.len() ==> entry_key(es, a) != entry_key(es, b),
        forall|i: int| 0 <= i < es.len() ==> #[trigger] entry_key(es, i) != e.path.deep_view(),
    ensures
        seq_model(es.push(e)) == seq_model(es).insert(e.path.deep_view(), e.kind),
{
    let es2 = es.push(e);
    let k = e.path.deep_view();
    assert forall|x: int| 0 <= x < es2.len() implies #[trigger] entry_key(es2, x) == (if x
        < es.len() {
        entry_key(es, x)
    } else {
        k
    }) by {
        if x < es.len() {
            assert(es2[x] == es[x]);
        }
    }
    assert forall|a: int, b: int|
        0 <= a < b < es2.len() implies entry_key(es2, a) != entry_key(es2, b) by {
        if b == es2.len() - 1 {
            assert(entry_key(es2, a) == entry_key(es, a));
        }
    }
    assert forall|k2: Seq<Seq<char>>|
        #![trigger seq_model(es2).contains_key(k2)]
        true implies seq_model(es2).contains_key(k2) == seq_model(es).insert(
        k,
        e.kind,
    ).contains_key(k2) by {
        if seq_model(es2).contains_key(k2) {
            let c = choose|c: int| 0 <= c < es2.len() && #[trigger] entry_key(es2, c) == k2;
            if c < es.len() {
                assert(entry_key(es, c) == k2);
            }
        }
        if k2 != k && seq_model(es).contains_key(k2) {
            let c = choose|c: int| 0 <= c < es.len() && #[trigger] entry_key(es, c) == k2;
            assert(entry_key(es2, c) == k2);
        }
        if k2 == k {
            assert(entry_key(es2, es2.len() - 1) == k2);
        }
    }
    assert forall|k2: Seq<Seq<char>>|
        #[trigger] seq_model(es2).contains_key(k2) implies seq_model(es2)[k2] == seq_model(
        es,
    ).insert(k, e.kind)[k2] by {
        let c = choose|c: int| 0 <= c < es2.len() && #[trigger] entry_key(es2, c) == k2;
        if k2 == k {
            if c != es2.len() - 1 {
                assert(entry_key(es, c) == k);
            }
            assert(seq_model(es2)[k2] == e.kind);
        } else {
            assert(c < es.len());
            assert(entry_key(es, c) == k2);
            let c0 = choose|c0: int| 0 <= c0 < es.len() && #[trigger] entry_key(es, c0) == k2;
            if c0 != c {
                if c0 < c {
                    assert(entry_key(es, c0) != entry_key(es, c));
                } else {
                    assert(entry_key(es, c) != entry_key(es, c0));
                }
            }
            assert(seq_model(es2)[k2] == es[c].kind);
        }
    }
    assert(seq_model(es2) =~= seq_model(es).insert(k, e.kind));
}

/// Removing an entry removes its key from the model.
proof fn lemma_mem_remove(es: Seq<MemEntry>, i: int)
    requires
        forall|a: int, b: int| 0 <= a < b < es.len() ==> entry_key(es, a) != entry_key(es, b),
        0 <= i < es.len(),
    ensures
        seq_model(es.remove(i)) == seq_model(es).remove(entry_key(es, i)),
{
    let es2 = es.remove(i);
    let k = entry_key(es, i);
    assert forall|x: int| 0 <= x < es2.len() implies #[trigger] entry_key(es2, x) == (if x < i {
        entry_key(es, x)
    } else {
        entry_key(es, x + 1)
    }) by {
        if x < i {
            assert(es2[x] == es[x]);
        } else {
            assert(es2[x] == es[x + 1]);
        }
    }
    assert forall|k2: Seq<Seq<char>>|
        #![trigger seq_model(es2).contains_key(k2)]
        true implies seq_model(es2).contains_key(k2) == seq_model(es).remove(
        k,
    ).contains_key(k2) by {
        if seq_model(es2).contains_key(k2) {
            let c = choose|c: int| 0 <= c < es2.len() && #[trigger] entry_key(es2, c) == k2;
            if c < i {
                assert(entry_key(es, c) == k2);
                if k2 == k {
                    assert(entry_key(es, c) != entry_key(es, i));
                }
            } else {
                assert(entry_key(es, c + 1) == k2);
                if k2 == k {
                    assert(entry_key(es, i) != entry_key(es, c + 1));
                }
            }
        }
        if k2 != k && seq_model(es).contains_key(k2) {
            let c = choose|c: int| 0 <= c < es.len() && #[trigger] entry_key(es, c) == k2;
            if c < i {
                assert(entry_key(es2, c) == k2);
            } else {
                assert(c != i);
                assert(entry_key(es2, c - 1) == k2);
            }
        }
    }
    assert forall|k2: Seq<Seq<char>>|
        #[trigger] seq_model(es2).contains_key(k2) implies seq_model(es2)[k2] == seq_model(
        es,
    ).remove(k)[k2] by {
        let c = choose|c: int| 0 <= c < es2.len() && #[trigger] entry_key(es2, c) == k2;
        let oc = if c < i {
            c
        } else {
            c + 1
        };
        assert(entry_key(es, oc) == k2);
        let c0 = choose|c0: int| 0 <= c0 < es.len() && #[trigger] entry_key(es, c0) == k2;
        if c0 != oc {
            if c0 < oc {
                assert(entry_key(es, c0) != entry_key(es, oc));
            } else {
                assert(entry_key(es, oc) != entry_key(es, c0));
            }
        }
        assert(seq_model(es2)[k2] == es2[c].kind);
        assert(es2[c].kind == es[oc].kind);
    }
    assert(seq_model(es2) =~= seq_model(es).remove(k));
}

/// A filesystem held in memory: a list of keyed entries.
#[derive(Debug, PartialEq, Eq)]
pub struct MemFs {
    pub entries: Vec<MemEntry>,
}

impl MemFs {
    /// An empty filesystem.
    pub fn new() -> (r: MemFs)
        ensures
            r.fs_inv(),
            r.fs_model() == Map::<Seq<Seq<char>>, FileKind>::empty(),
    {
        let r = MemFs { entries: Vec::new() };
        proof {
            assert(r.fs_model() =~= Map::<Seq<Seq<char>>, FileKind>::empty());
        }
        r
    }

    /// The position of the entry with this key, if any.
    fn find_key(&self, key: &Vec<String>) -> (r: Option<usize>)
        ensures
            match r {
                Some(i) => (i as int) < self.entries@.len() && entry_key(
                    self.entries@,
                    i as int,
                ) == key.deep_view(),
                None => forall|i: int|
                    0 <= i < self.entries@.len() ==> #[trigger] entry_key(self.entries@, i)
                        != key.deep_view(),
            },
    {
        let mut i: usize = 0;
        while i < self.entries.len()
            invariant
                i <= self.entries@.len(),
                forall|j: int|
                    0 <= j < i ==> #[trigger] entry_key(self.entries@, j) != key.deep_view(),
            decreases self.entries.len() - i,
        {
            proof {
                assert(self.entries@[i as int].path.deep_view() == entry_key(
                    self.entries@,
                    i as int,
                ));
            }
            if crate::text::string_seqs_eq(&self.entries[i].path, key) {
                return Some(i);
            }
            i = i + 1;
        }
        None
    }
}

/// All but the last component of a key.
fn parent_key(key: &Vec<String>) -> (r: Vec<String>)
    requires
        key.deep_view().len() >= 1,
    ensures
        r.deep_view() == key.deep_view().drop_last(),
{
    let mut r: Vec<String> = Vec::new();
    let mut i: usize = 0;
    while i < key.len() - 1
        invariant
            key.deep_view().len() >= 1,
            i <= key.deep_view().len() - 1,
            r.deep_view() == key.deep_view().subrange(0, i as int),
        decreases key.len() - 1 - i,
    {
        let ghost prevr = r@;
        let ghost prevd = r.deep_view();
        let piece = key[i].clone();
        let ghost pv = piece@;
        proof {
            assert(pv == key.deep_view()[i as int]);
        }
        r.push(piece);
        i = i + 1;
        proof {
            assert(r@[r@.len() - 1]@ == pv);
            assert(r@.len() == prevr.len() + 1);
            assert(prevd.len() == prevr.len());
            assert(prevd.len() == i - 1);
            assert forall|y: int|
                0 <= y < r.deep_view().len() implies #[trigger] r.deep_view()[y]
                == key.deep_view().subrange(0, i as int)[y] by {
                if y < prevd.len() {
                    assert(r@[y] == prevr[y]);
                    assert(r.deep_view()[y] == r@[y].deep_view());
                    assert(prevd[y] == prevr[y].deep_view());
                } else {
                    assert(r.deep_view()[y] == r@[y].deep_view());
                }
            }
            assert(r.deep_view() =~= key.deep_view().subrange(0, i as int));
        }
    }
    proof {
        assert(key.deep_view().subrange(0, key.deep_view().len() - 1)
            =~= key.deep_view().drop_last());
    }
    r
}

/// Inserts an entry of a fresh, non-root key once its parent is
/// checked to be a directory.
fn mem_insert(fs: &mut MemFs, key: &Vec<String>, kind: FileKind) -> (r: Result<(), FsError>)
    requires
        old(fs).fs_inv(),
        key.deep_view().len() > 0,
        !old(fs).fs_model().contains_key(key.deep_view()),
    ensures
        final(fs).fs_inv(),
        ({
            let k = key.deep_view();
            let m = old(fs).fs_model();
            if k.len() > 1 && !m.contains_key(k.drop_last()) {
                r matches Err(FsError::EntryNotFound) && final(fs).fs_model() == m
            } else if k.len() > 1 && m[k.drop_last()] is File {
                r matches Err(FsError::BaseNotDirectory) && final(fs).fs_model() == m
            } else {
                r matches Ok(u) && final(fs).fs_model() == m.insert(k, kind)
            }
        }),
{
    let ghost k = key.deep_view();
    let ghost es = fs.entries@;
    if key.len() > 1 {
        let parent = parent_key(key);
        match fs.find_key(&parent) {
            None => {
                proof {
                    if seq_model(es).contains_key(k.drop_last()) {
                        let c = choose|c: int|
                            0 <= c < es.len() && #[trigger] entry_key(es, c) == k.drop_last();
                        assert(entry_key(es, c) != parent.deep_view());
                    }
                }
                return Err(FsError::EntryNotFound);
            },
            Some(j) => {
                proof {
                    lemma_mem_choice(es, j as int);
                }
                match fs.entries[j].kind {
                    FileKind::File => {
                        return Err(FsError::BaseNotDirectory);
                    },
                    FileKind::Directory => {},
                }
            },
        }
    }
    let entry = MemEntry { path: crate::text::clone_strings(key), kind };
    proof {
        assert(entry.path.deep_view() == k);
        if seq_model(es).contains_key(k) {
        } else {
            assert forall|i: int|
                0 <= i < es.len() implies #[trigger] entry_key(es, i) != k by {
                if entry_key(es, i) == k {
                    assert(seq_model(es).contains_key(k));
                }
            }
        }
    }
    let ghost e = entry;
    fs.entries.push(entry);
    proof {
        assert(fs.entries@ == es.push(e));
        lemma_mem_insert(es, e);
        let es2 = fs.entries@;
        assert forall|x: int| 0 <= x < es2.len() implies #[trigger] entry_key(es2, x) == (if x
            < es.len() {
            entry_key(es, x)
        } else {
            k
        }) by {
            if x < es.len() {
                assert(es2[x] == es[x]);
            }
        }
        assert(seq_inv(es2)) by {
            assert forall|a: int, b: int|
                0 <= a < b < es2.len() implies entry_key(es2, a) != entry_key(es2, b) by {
                if b == es2.len() - 1 {
                    if entry_key(es2, a) == k {
                        assert(seq_model(es).contains_key(k)) by {
                            assert(entry_key(es, a) == k);
                        }
                    }
                }
            }
            assert forall|i: int|
                0 <= i < es2.len() && (#[trigger] entry_key(es2, i)).len() > 1
                implies exists|j: int|
                0 <= j < es2.len() && #[trigger] entry_key(es2, j) == entry_key(
                    es2,
                    i,
                ).drop_last() && es2[j].kind is Directory by {
                if i < es.len() {
                    let j = choose|j: int|
                        0 <= j < es.len() && #[trigger] entry_key(es, j) == entry_key(
                            es,
                            i,
                        ).drop_last() && es[j].kind is Directory;
                    assert(entry_key(es2, j) == entry_key(es2, i).drop_last() && es2[j].kind
                        is Directory);
                } else {
                    assert(entry_key(es2, i) == k);
                    let pj = choose|pj: int|
                        0 <= pj < es.len() && #[trigger] entry_key(es, pj) == k.drop_last();
                    assert(entry_key(es2, pj) == k.drop_last() && es2[pj].kind is Directory)
                        by {
                        lemma_mem_choice(es, pj);
                    }
                }
            }
        }
    }
    Ok(())
}

impl FileSystem for MemFs {
    open spec fn fs_model(&self) -> Map<Seq<Seq<char>>, FileKind> {
        seq_model(self.entries@)
    }

    open spec fn fs_inv(&self) -> bool {
        seq_inv(self.entries@)
    }

    fn metadata_key(&self, key: &Vec<String>) -> (r: Option<Metadata>) {
        if key.len() == 0 {
            proof {
                assert(key.deep_view().len() == 0);
            }
            return Some(Metadata { kind: FileKind::Directory });
        }
        proof {
            assert(key.deep_view().len() > 0);
        }
        match self.find_key(key) {
            Some(i) => {
                proof {
                    lemma_mem_choice(self.entries@, i as int);
                }
                Some(Metadata { kind: self.entries[i].kind })
            },
            None => {
                proof {
                    if self.fs_model().contains_key(key.deep_view()) {
                        let c = choose|c: int|
                            0 <= c < self.entries@.len() && #[trigger] entry_key(
                                self.entries@,
                                c,
                            ) == key.deep_view();
                        assert(entry_key(self.entries@, c) != key.deep_view());
                    }
                }
                None
            },
        }
    }

    fn create_dir_key(&mut self, key: &Vec<String>) -> (r: Result<(), FsError>) {
        if key.len() == 0 {
            proof {
                assert(key.deep_view().len() == 0);
            }
            return Err(FsError::AlreadyExists);
        }
        match self.find_key(key) {
            Some(i) => {
                proof {
                    lemma_mem_choice(self.entries@, i as int);
                }
                Err(FsError::AlreadyExists)
            },
            None => {
                proof {
                    assert(key.deep_view().len() > 0);
                    if self.fs_model().contains_key(key.deep_view()) {
                        let c = choose|c: int|
                            0 <= c < self.entries@.len() && #[trigger] entry_key(
                                self.entries@,
                                c,
                            ) == key.deep_view();
                        assert(entry_key(self.entries@, c) != key.deep_view());
                    }
                }
                mem_insert(self, key, FileKind::Directory)
            },
        }
    }

    fn create_file_key(&mut self, key: &Vec<String>, exclusive: bool) -> (r: Result<
        (),
        FsError,
    >) {
        if key.len() == 0 {
            proof {
                assert(key.deep_view().len() == 0);
            }
            return Err(FsError::BaseNotDirectory);
        }
        match self.find_key(key) {
            Some(i) => {
                proof {
                    lemma_mem_choice(self.entries@, i as int);
                }
                match self.entries[i].kind {
                    FileKind::Directory => Err(FsError::BaseNotDirectory),
                    FileKind::File => {
                        if exclusive {
                            Err(FsError::AlreadyExists)
                        } else {
                            Ok(())
                        }
                    },
                }
            },
            None => {
                proof {
                    assert(key.deep_view().len() > 0);
                    if self.fs_model().contains_key(key.deep_view()) {
                        let c = choose|c: int|
                            0 <= c < self.entries@.len() && #[trigger] entry_key(
                                self.entries@,
                                c,
                            ) == key.deep_view();
                        assert(entry_key(self.entries@, c) != key.deep_view());
                    }
                }
                mem_insert(self, key, FileKind::File)
            },
        }
    }

    fn remove_file_key(&mut self, key: &Vec<String>) -> (r: Result<(), FsError>) {
        let ghost es = self.entries@;
        match self.find_key(key) {
            None => {
                proof {
                    if self.fs_model().contains_key(key.deep_view()) {
                        let c = choose|c: int|
                            0 <= c < es.len() && #[trigger] entry_key(es, c)
                                == key.deep_view();
                        assert(entry_key(es, c) != key.deep_view());
                    }
                }
                Err(FsError::EntryNotFound)
            },
            Some(i) => {
                proof {
                    lemma_mem_choice(es, i as int);
                }
                match self.entries[i].kind {
                    FileKind::Directory => Err(FsError::BaseNotDirectory),
                    FileKind::File => {
                        let _ = self.entries.remove(i);
                        proof {
                            assert(self.entries@ == es.remove(i as int));
                            lemma_mem_remove(es, i as int);
                            let es2 = self.entries@;
                            assert forall|x: int|
                                0 <= x < es2.len() implies #[trigger] entry_key(es2, x) == (
                            if x < i as int {
                                entry_key(es, x)
                            } else {
                                entry_key(es, x + 1)
                            }) by {
                                if x < i as int {
                                    assert(es2[x] == es[x]);
                                } else {
                                    assert(es2[x] == es[x + 1]);
                                }
                            }
                            assert(seq_inv(es2)) by {
                                assert forall|a: int, b: int|
                                    0 <= a < b < es2.len() implies entry_key(es2, a)
                                    != entry_key(es2, b) by {
                                    let oa = if a < i as int {
                                        a
                                    } else {
                                        a + 1
                                    };
                                    let ob = if b < i as int {
                                        b
                                    } else {
                                        b + 1
                                    };
                                    assert(entry_key(es, oa) != entry_key(es, ob));
                                }
                                assert forall|x: int|
                                    0 <= x < es2.len() && (#[trigger] entry_key(es2, x)).len()
                                        > 1 implies exists|j: int|
                                    0 <= j < es2.len() && #[trigger] entry_key(es2, j)
                                        == entry_key(es2, x).drop_last() && es2[j].kind
                                        is Directory by {
                                    let ox = if x < i as int {
                                        x
                                    } else {
                                        x + 1
                                    };
                                    let j = choose|j: int|
                                        0 <= j < es.len() && #[trigger] entry_key(es, j)
                                            == entry_key(es, ox).drop_last() && es[j].kind
                                            is Directory;
                                    assert(j != i as int);
                                    let nj = if j < i as int {
                                        j
                                    } else {
                                        j - 1
                                    };
                                    assert(entry_key(es2, nj) == entry_key(
                                        es2,
                                        x,
                                    ).drop_last() && es2[nj].kind is Directory);
                                }
                            }
                        }
                        Ok(())
                    },
                }
            },
        }
    }

    #[verifier::rlimit(100)]
    #[verifier::spinoff_prover]
    fn read_dir_key(&self, key: &Vec<String>) -> (r: Result<Vec<DirEntry>, FsError>) {
        let ghost k = key.deep_view();
        let ghost m = self.fs_model();
        let ghost es = self.entries@;
        if key.len() > 0 {
            proof {
                assert(k.len() > 0);
            }
            match self.metadata_key(key) {
                Some(md) => {
                    if !md.is_dir() {
                        return Err(FsError::BaseNotDirectory);
                    }
                },
                None => {
                    return Err(FsError::EntryNotFound);
                },
            }
        }
        proof {
            assert(k.len() == 0 || (m.contains_key(k) && m[k] is Directory));
        }
        let mut out: Vec<DirEntry> = Vec::new();
        let mut i: usize = 0;
        while i < self.entries.len()
            invariant
                self.fs_inv(),
                k == key.deep_view(),
                m == self.fs_model(),
                es == self.entries@,
                i <= es.len(),
                forall|x: int|
                    0 <= x < out@.len() ==> {
                        let p = (#[trigger] out@[x]).path.deep_view();
                        &&& m.contains_key(p)
                        &&& m[p] == out@[x].kind
                        &&& p.len() == k.len() + 1
                        &&& p.drop_last() == k
                    },
                forall|j: int|
                    0 <= j < i && (#[trigger] entry_key(es, j)).len() == k.len() + 1
                        && entry_key(es, j).drop_last() == k ==> exists|x: int|
                        0 <= x < out@.len() && (#[trigger] out@[x]).path.deep_view()
                            == entry_key(es, j),
                forall|x: int, y: int|
                    0 <= x < y < out@.len() ==> (#[trigger] out@[x]).path.deep_view() != (
                    #[trigger] out@[y]).path.deep_view(),
                forall|x: int|
                    0 <= x < out@.len() ==> exists|j: int|
                        0 <= j < i && #[trigger] entry_key(es, j) == (
                        #[trigger] out@[x]).path.deep_view(),
            decreases self.entries.len() - i,
        {
            proof {
                assert(self.entries@[i as int].path.deep_view() == entry_key(es, i as int));
            }
            if is_child_key(&self.entries[i].path, key) {
                let ghost prevo = out@;
                let entry = DirEntry {
                    path: crate::text::clone_strings(&self.entries[i].path),
                    kind: self.entries[i].kind,
                };
                let ghost ev = entry.path.deep_view();
                proof {
                    assert(ev == entry_key(es, i as int));
                    lemma_mem_choice(es, i as int);
                    assert forall|x: int| 0 <= x < prevo.len() implies (
                    #[trigger] prevo[x]).path.deep_view() != ev by {
                        let j = choose|j: int|
                            0 <= j < i && #[trigger] entry_key(es, j) == prevo[
                            x].path.deep_view();
                        if prevo[x].path.deep_view() == ev {
                            assert(entry_key(es, j) != entry_key(es, i as int));
                        }
                    }
                }
                out.push(entry);
                proof {
                    assert(out@[out@.len() - 1].path.deep_view() == ev);
                    assert forall|x: int| 0 <= x < out@.len() - 1 implies out@[x]
                        == prevo[x] by {}
                }
            }
            i = i + 1;
        }
        Ok(out)
    }
}

/// Whether `path` is one component below `key`.
fn is_child_key(path: &Vec<String>, key: &Vec<String>) -> (r: bool)
    ensures
        r == (path.deep_view().len() == key.deep_view().len() + 1
            && path.deep_view().drop_last() == key.deep_view()),
{
    if path.len() == 0 || path.len() - 1 != key.len() {
        return false;
    }
    let mut c: usize = 0;
    while c < key.len()
        invariant
            path.deep_view().len() == key.deep_view().len() + 1,
            c <= key.deep_view().len(),
            forall|y: int| 0 <= y < c ==> path.deep_view()[y] == key.deep_view()[y],
        decreases key.len() - c,
    {
        proof {
            assert(path.deep_view()[c as int] == path@[c as int]@);
            assert(key.deep_view()[c as int] == key@[c as int]@);
        }
        if !crate::text::str_eq(path[c].as_str(), key[c].as_str()) {
            proof {
                if path.deep_view().drop_last() == key.deep_view() {
                    assert(path.deep_view().drop_last()[c as int] == key.deep_view()[
                    c as int]);
                }
            }
            return false;
        }
        c = c + 1;
    }
    proof {
        assert(path.deep_view().drop_last() =~= key.deep_view());
    }
    true
}

} // verus!
// The module ends: the filesystem operations.

verus! {

/// Whether this path names an existing entry (the root always exists).
pub fn path_exists<F: FileSystem>(fs: &F, path: &str) -> (r: bool)
    requires
        fs.fs_inv(),
    ensures
        r == (match path_key(path@) {
            Some(k) => k.len() == 0 || fs.fs_model().contains_key(k),
            None => false,
        }),
{
    match clean_components(path) {
        Err(_) => false,
        Ok(key) => fs.metadata_key(&key).is_some(),
    }
}

/// Whether this path names a directory (the root is one).
pub fn is_dir<F: FileSystem>(fs: &F, path: &str) -> (r: bool)
    requires
        fs.fs_inv(),
    ensures
        r == (match path_key(path@) {
            Some(k) => k.len() == 0 || (fs.fs_model().contains_key(k) && fs.fs_model()[k]
                is Directory),
            None => false,
        }),
{
    match clean_components(path) {
        Err(_) => false,
        Ok(key) => match fs.metadata_key(&key) {
            Some(m) => m.is_dir(),
            None => false,
        },
    }
}

/// Whether this path names a file.
pub fn is_file<F: FileSystem>(fs: &F, path: &str) -> (r: bool)
    requires
        fs.fs_inv(),
    ensures
        r == (match path_key(path@) {
            Some(k) => k.len() > 0 && fs.fs_model().contains_key(k) && fs.fs_model()[k]
                is File,
            None => false,
        }),
{
    match clean_components(path) {
        Err(_) => false,
        Ok(key) => match fs.metadata_key(&key) {
            Some(m) => m.is_file(),
            None => false,
        },
    }
}

/// Every prefix of `k` up to length `i` is a directory of `m`.
pub open spec fn dirs_upto(m: Map<Seq<Seq<char>>, FileKind>, k: Seq<Seq<char>>, i: int) -> bool
    decreases i,
{
    i < 1 || (m.contains_key(k.subrange(0, i)) && m[k.subrange(0, i)] is Directory
        && dirs_upto(m, k, i - 1))
}

/// Every entry of `m0` is still in `m`, unchanged.
pub open spec fn model_preserves(
    m0: Map<Seq<Seq<char>>, FileKind>,
    m: Map<Seq<Seq<char>>, FileKind>,
) -> bool {
    forall|k2: Seq<Seq<char>>|
        #[trigger] m0.contains_key(k2) ==> m.contains_key(k2) && m[k2] == m0[k2]
}

/// Every entry of `m` was in `m0` or is a prefix of `k` up to length
/// `i`.
pub open spec fn model_from(
    m0: Map<Seq<Seq<char>>, FileKind>,
    m: Map<Seq<Seq<char>>, FileKind>,
    k: Seq<Seq<char>>,
    i: int,
) -> bool {
    forall|k2: Seq<Seq<char>>|
        #[trigger] m.contains_key(k2) ==> m0.contains_key(k2) || exists|j: int|
            1 <= j <= i && k2 == k.subrange(0, j)
}

/// Inserting an entry of a longer key keeps the directory prefixes.
proof fn lemma_dirs_skip(
    m: Map<Seq<Seq<char>>, FileKind>,
    k: Seq<Seq<char>>,
    i: int,
    nk: Seq<Seq<char>>,
    kind: FileKind,
)
    requires
        dirs_upto(m, k, i),
        i <= k.len(),
        nk.len() > i,
    ensures
        dirs_upto(m.insert(nk, kind), k, i),
    decreases i,
{
    if i >= 1 {
        assert(k.subrange(0, i).len() == i);
        assert(k.subrange(0, i) != nk);
        lemma_dirs_skip(m, k, i - 1, nk, kind);
    }
}

/// Every single prefix of a directory chain is a directory.
proof fn lemma_dirs_upto_index(
    m: Map<Seq<Seq<char>>, FileKind>,
    k: Seq<Seq<char>>,
    n: int,
    j: int,
)
    requires
        dirs_upto(m, k, n),
        1 <= j <= n,
    ensures
        m.contains_key(k.subrange(0, j)),
        m[k.subrange(0, j)] is Directory,
    decreases n,
{
    if j < n {
        lemma_dirs_upto_index(m, k, n - 1, j);
    }
}

/// Creates the directory at this key and every missing ancestor.
fn mkdirs_key<F: FileSystem>(fs: &mut F, key: &Vec<String>) -> (r: Result<(), FsError>)
    requires
        old(fs).fs_inv(),
    ensures
        final(fs).fs_inv(),
        ({
            let k = key.deep_view();
            let m = old(fs).fs_model();
            match r {
                Ok(u) => {
                    &&& dirs_upto(final(fs).fs_model(), k, k.len() as int)
                    &&& model_preserves(m, final(fs).fs_model())
                    &&& model_from(m, final(fs).fs_model(), k, k.len() as int)
                },
                Err(e) => {
                    &&& e == FsError::BaseNotDirectory
                    &&& exists|j: int|
                        1 <= j <= k.len() && #[trigger] m.contains_key(k.subrange(0, j)) && m[
                        k.subrange(0, j)] is File
                    &&& model_preserves(m, final(fs).fs_model())
                    &&& model_from(m, final(fs).fs_model(), k, k.len() as int)
                },
            }
        }),
        ({
            let k = key.deep_view();
            let m = old(fs).fs_model();
            (r is Ok) == (forall|j: int|
                1 <= j <= k.len() ==> !(#[trigger] m.contains_key(k.subrange(0, j)) && m[
                k.subrange(0, j)] is File))
        }),
{
    let ghost k = key.deep_view();
    let ghost m0 = old(fs).fs_model();
    let mut prefix: Vec<String> = Vec::new();
    let mut i: usize = 0;
    proof {
        assert(prefix.deep_view() =~= k.subrange(0, 0));
    }
    while i < key.len()
        invariant
            old(fs).fs_inv(),
            k == key.deep_view(),
            m0 == old(fs).fs_model(),
            i <= k.len(),
            prefix.deep_view() == k.subrange(0, i as int),
            fs.fs_inv(),
            dirs_upto(fs.fs_model(), k, i as int),
            model_preserves(m0, fs.fs_model()),
            model_from(m0, fs.fs_model(), k, i as int),
            forall|k2: Seq<Seq<char>>|
                #[trigger] fs.fs_model().contains_key(k2) && !m0.contains_key(k2)
                    ==> fs.fs_model()[k2] is Directory,
        decreases key.len() - i,
    {
        let ghost prevp = prefix@;
        let ghost prevd = prefix.deep_view();
        let piece = key[i].clone();
        let ghost pv = piece@;
        proof {
            assert(pv == k[i as int]);
        }
        prefix.push(piece);
        i = i + 1;
        proof {
            assert(prefix@[prefix@.len() - 1]@ == pv);
            assert(prefix@.len() == prevp.len() + 1);
            assert(prevd.len() == prevp.len());
            assert forall|y: int|
                0 <= y < prefix.deep_view().len() implies #[trigger] prefix.deep_view()[y]
                == k.subrange(0, i as int)[y] by {
                if y < prevd.len() {
                    assert(prefix@[y] == prevp[y]);
                    assert(prefix.deep_view()[y] == prefix@[y].deep_view());
                    assert(prevd[y] == prevp[y].deep_view());
                } else {
                    assert(prefix.deep_view()[y] == prefix@[y].deep_view());
                }
            }
            assert(prefix.deep_view() =~= k.subrange(0, i as int));
        }
        match fs.metadata_key(&prefix) {
            Some(md) => {
                if !md.is_dir() {
                    proof {
                        assert(fs.fs_model().contains_key(k.subrange(0, i as int)));
                        assert(fs.fs_model()[k.subrange(0, i as int)] is File);
                        // The file predates this call: everything this
                        // function adds is a directory.
                        assert(m0.contains_key(k.subrange(0, i as int)));
                        assert(m0[k.subrange(0, i as int)] is File);
                    }
                    return Err(FsError::BaseNotDirectory);
                }
                proof {
                    assert(fs.fs_model().contains_key(k.subrange(0, i as int)));
                    assert(fs.fs_model()[k.subrange(0, i as int)] is Directory);
                    assert(dirs_upto(fs.fs_model(), k, i as int));
                    assert(model_from(m0, fs.fs_model(), k, i as int)) by {
                        assert forall|k2: Seq<Seq<char>>|
                            #[trigger] fs.fs_model().contains_key(k2) implies m0.contains_key(
                            k2,
                        ) || exists|j: int| 1 <= j <= i && k2 == k.subrange(0, j) by {
                            if !m0.contains_key(k2) {
                                let j = choose|j: int|
                                    1 <= j <= i - 1 && k2 == k.subrange(0, j);
                                assert(1 <= j <= i && k2 == k.subrange(0, j));
                            }
                        }
                    }
                }
            },
            None => {
                let ghost mm = fs.fs_model();
                match fs.create_dir_key(&prefix) {
                    Ok(_) => {
                        proof {
                            let nk = k.subrange(0, i as int);
                            assert(!mm.contains_key(nk));
                            assert(fs.fs_model() == mm.insert(nk, FileKind::Directory));
                            assert(nk.len() == i as int);
                            lemma_dirs_skip(mm, k, i - 1, nk, FileKind::Directory);
                            assert(dirs_upto(fs.fs_model(), k, i as int));
                            assert forall|k2: Seq<Seq<char>>|
                                #[trigger] m0.contains_key(k2) implies fs.fs_model().contains_key(
                                k2,
                            ) && fs.fs_model()[k2] == m0[k2] by {
                                assert(mm.contains_key(k2) && mm[k2] == m0[k2]);
                                assert(k2 != nk);
                            }
                            assert forall|k2: Seq<Seq<char>>|
                                #[trigger] fs.fs_model().contains_key(k2)
                                implies m0.contains_key(k2) || exists|j: int|
                                1 <= j <= i && k2 == k.subrange(0, j) by {
                                if k2 != nk {
                                    assert(mm.contains_key(k2));
                                    if !m0.contains_key(k2) {
                                        let j = choose|j: int|
                                            1 <= j <= i - 1 && k2 == k.subrange(0, j);
                                        assert(1 <= j <= i && k2 == k.subrange(0, j));
                                    }
                                } else {
                                    assert(1 <= i as int <= i as int && k2 == k.subrange(
                                        0,
                                        i as int,
                                    ));
                                }
                            }
                            assert forall|k2: Seq<Seq<char>>|
                                #[trigger] fs.fs_model().contains_key(k2) && !m0.contains_key(
                                k2,
                            ) implies fs.fs_model()[k2] is Directory by {
                                if k2 != nk {
                                    assert(mm.contains_key(k2));
                                }
                            }
                        }
                    },
                    Err(_) => {
                        proof {
                            if i as int > 1 {
                                assert(prefix.deep_view().drop_last() =~= k.subrange(
                                    0,
                                    i - 1,
                                ));
                                assert(mm.contains_key(k.subrange(0, i - 1)));
                                assert(mm[k.subrange(0, i - 1)] is Directory);
                            }
                            assert(false);
                        }
                        unreached()
                    },
                }
            },
        }
    }
    proof {
        assert(k.subrange(0, k.len() as int) =~= k);
        // Every prefix is now a directory, so none was a file before.
        assert forall|j: int|
            1 <= j <= k.len() implies !(#[trigger] m0.contains_key(k.subrange(0, j)) && m0[
        k.subrange(0, j)] is File) by {
            if m0.contains_key(k.subrange(0, j)) && m0[k.subrange(0, j)] is File {
                lemma_dirs_upto_index(fs.fs_model(), k, k.len() as int, j);
                assert(fs.fs_model()[k.subrange(0, j)] == m0[k.subrange(0, j)]);
            }
        }
    }
    Ok(())
}

/// Makes sure this directory and all its ancestors exist, like a
/// recursive directory creation.
pub fn create_dir_all<F: FileSystem>(fs: &mut F, path: &str) -> (r: Result<(), FsError>)
    requires
        old(fs).fs_inv(),
    ensures
        final(fs).fs_inv(),
        ({
            let m = old(fs).fs_model();
            match path_key(path@) {
                None => r matches Err(FsError::InvalidInput) && final(fs).fs_model() == m,
                Some(k) => match r {
                    Ok(u) => {
                        &&& dirs_upto(final(fs).fs_model(), k, k.len() as int)
                        &&& model_preserves(m, final(fs).fs_model())
                        &&& model_from(m, final(fs).fs_model(), k, k.len() as int)
                    },
                    Err(e) => {
                        &&& e == FsError::BaseNotDirectory
                        &&& exists|j: int|
                            1 <= j <= k.len() && #[trigger] m.contains_key(k.subrange(0, j)) && m[
                            k.subrange(0, j)] is File
                        &&& model_preserves(m, final(fs).fs_model())
                        &&& model_from(m, final(fs).fs_model(), k, k.len() as int)
                    },
                },
            }
        }),
        ({
            let m = old(fs).fs_model();
            match path_key(path@) {
                None => true,
                Some(k) => (r is Ok) == (forall|j: int|
                    1 <= j <= k.len() ==> !(#[trigger] m.contains_key(k.subrange(0, j)) && m[
                    k.subrange(0, j)] is File)),
            }
        }),
{
    let key = match clean_components(path) {
        Ok(key) => key,
        Err(_) => {
            return Err(FsError::InvalidInput);
        },
    };
    mkdirs_key(fs, &key)
}

/// The whiteout name of an entry name.
pub open spec fn wh_name(s: Seq<char>) -> Seq<char> {
    ".wh."@ + s
}

/// The whiteout key of a non-root key: its last component prefixed
/// with the whiteout marker.
pub open spec fn wh_key(k: Seq<Seq<char>>) -> Seq<Seq<char>> {
    k.drop_last().push(wh_name(k.last()))
}

/// The whiteout key of a non-root key, as components.
fn whiteout_key(key: &Vec<String>) -> (r: Vec<String>)
    requires
        key.deep_view().len() > 0,
    ensures
        r.deep_view() == wh_key(key.deep_view()),
{
    let mut r = parent_key(key);
    let mut name: Vec<char> = Vec::new();
    push_str_chars(&mut name, ".wh.");
    push_str_chars(&mut name, key[key.len() - 1].as_str());
    proof {
        assert(key@[key@.len() - 1]@ == key.deep_view().last());
        assert(name@ =~= wh_name(key.deep_view().last()));
    }
    let ghost prevr = r@;
    let ghost prevd = r.deep_view();
    let piece = chars_to_string(&name);
    let ghost pv = piece@;
    r.push(piece);
    proof {
        assert(r@[r@.len() - 1]@ == pv);
        assert(r@.len() == prevr.len() + 1);
        assert(prevd.len() == prevr.len());
        assert forall|y: int|
            0 <= y < r.deep_view().len() implies #[trigger] r.deep_view()[y] == wh_key(
            key.deep_view(),
        )[y] by {
            if y < prevd.len() {
                assert(r@[y] == prevr[y]);
                assert(r.deep_view()[y] == r@[y].deep_view());
                assert(prevd[y] == prevr[y].deep_view());
            } else {
                assert(r.deep_view()[y] == r@[y].deep_view());
            }
        }
        assert(r.deep_view() =~= wh_key(key.deep_view()));
    }
    r
}

/// Creates the whiteout file that hides this path from lower layers:
/// its parent directories are made first, then the marker file itself,
/// which must not already exist.
pub fn create_white_out<F: FileSystem>(fs: &mut F, path: &str) -> (r: Result<(), FsError>)
    requires
        old(fs).fs_inv(),
    ensures
        final(fs).fs_inv(),
        ({
            let m = old(fs).fs_model();
            match path_key(path@) {
                None => r matches Err(FsError::InvalidInput) && final(fs).fs_model() == m,
                Some(k) => if k.len() == 0 {
                    r matches Err(FsError::EntryNotFound) && final(fs).fs_model() == m
                } else {
                    &&& (r is Ok ==> final(fs).fs_model().contains_key(wh_key(k))
                        && final(fs).fs_model()[wh_key(k)] is File)
                    &&& forall|k2: Seq<Seq<char>>|
                        #[trigger] final(fs).fs_model().contains_key(k2) ==> m.contains_key(k2)
                            || k2 == wh_key(k) || (exists|j: int|
                            1 <= j <= k.len() - 1 && k2 == k.drop_last().subrange(0, j))
                    &&& forall|k2: Seq<Seq<char>>|
                        #[trigger] m.contains_key(k2) ==> final(fs).fs_model().contains_key(k2)
                            && final(fs).fs_model()[k2] == m[k2]
                    &&& (m.contains_key(wh_key(k)) ==> r is Err)
                    &&& ((!m.contains_key(wh_key(k)) && (forall|j: int|
                        1 <= j <= k.len() - 1 ==> !(#[trigger] m.contains_key(
                            k.drop_last().subrange(0, j),
                        ) && m[k.drop_last().subrange(0, j)] is File))) ==> r is Ok)
                },
            }
        }),
{
    let key = match clean_components(path) {
        Ok(key) => key,
        Err(_) => {
            return Err(FsError::InvalidInput);
        },
    };
    if key.len() == 0 {
        proof {
            assert(key.deep_view().len() == 0);
        }
        return Err(FsError::EntryNotFound);
    }
    proof {
        assert(key.deep_view().len() > 0);
    }
    let parent = parent_key(&key);
    let ghost k = key.deep_view();
    let ghost m = fs.fs_model();
    let mk = mkdirs_key(fs, &parent);
    let ghost m2 = fs.fs_model();
    let wkey = whiteout_key(&key);
    let r = fs.create_file_key(&wkey, true);
    proof {
        let wk = wh_key(k);
        let mf = fs.fs_model();
        assert forall|k2: Seq<Seq<char>>|
            #[trigger] mf.contains_key(k2) implies m.contains_key(k2) || k2 == wk || (exists|
                j: int,
            |
                1 <= j <= k.len() - 1 && k2 == k.drop_last().subrange(0, j)) by {
            if k2 != wk {
                assert(m2.contains_key(k2));
                if !m.contains_key(k2) {
                    let j = choose|j: int|
                        1 <= j <= parent.deep_view().len() && k2 == parent.deep_view().subrange(
                            0,
                            j,
                        );
                    assert(k2 == k.drop_last().subrange(0, j));
                }
            }
        }
        assert forall|k2: Seq<Seq<char>>|
            #[trigger] m.contains_key(k2) implies mf.contains_key(k2) && mf[k2] == m[k2] by {
            assert(m2.contains_key(k2) && m2[k2] == m[k2]);
            if mf != m2 {
                assert(!m2.contains_key(wk));
                assert(k2 != wk);
            }
        }
        assert(wk.len() == k.len());
        // A marker already present survives the directory creation, so
        // the exclusive create must fail.
        if m.contains_key(wk) {
            assert(m2.contains_key(wk) && m2[wk] == m[wk]);
            assert(r is Err);
        }
        // With no marker and no file along the parent chain, every step
        // succeeds.
        if !m.contains_key(wk) && (forall|j: int|
            1 <= j <= k.len() - 1 ==> !(#[trigger] m.contains_key(k.drop_last().subrange(0, j))
                && m[k.drop_last().subrange(0, j)] is File)) {
            let pd = parent.deep_view();
            assert(pd == k.drop_last());
            assert forall|j: int|
                1 <= j <= pd.len() implies !(#[trigger] m.contains_key(pd.subrange(0, j)) && m[
            pd.subrange(0, j)] is File) by {
                assert(pd.subrange(0, j) == k.drop_last().subrange(0, j));
            }
            assert(mk is Ok);
            assert(dirs_upto(m2, pd, pd.len() as int));
            assert(!m2.contains_key(wk)) by {
                if m2.contains_key(wk) {
                    let j = choose|j: int| 1 <= j <= pd.len() && wk == pd.subrange(0, j);
                    assert(pd.subrange(0, j).len() == j);
                    assert(false);
                }
            }
            if k.len() > 1 {
                lemma_dirs_upto_index(m2, pd, pd.len() as int, pd.len() as int);
                assert(pd.subrange(0, pd.len() as int) =~= pd);
                assert(wk.drop_last() =~= pd);
                assert(m2.contains_key(wk.drop_last()));
                assert(m2[wk.drop_last()] is Directory);
            }
            assert(r is Ok);
        }
    }
    match r {
        Ok(_) => Ok(()),
        Err(e) => Err(e),
    }
}

/// Removes the whiteout file of this path, if it is there.
pub fn remove_white_out<F: FileSystem>(fs: &mut F, path: &str)
    requires
        old(fs).fs_inv(),
    ensures
        final(fs).fs_inv(),
        ({
            let m = old(fs).fs_model();
            match path_key(path@) {
                None => final(fs).fs_model() == m,
                Some(k) => if k.len() == 0 {
                    final(fs).fs_model() == m
                } else if m.contains_key(wh_key(k)) && m[wh_key(k)] is File {
                    final(fs).fs_model() == m.remove(wh_key(k))
                } else {
                    final(fs).fs_model() == m
                },
            }
        }),
{
    let key = match clean_components(path) {
        Ok(key) => key,
        Err(_) => {
            return ;
        },
    };
    if key.len() == 0 {
        proof {
            assert(key.deep_view().len() == 0);
        }
        return ;
    }
    proof {
        assert(key.deep_view().len() > 0);
    }
    let wkey = whiteout_key(&key);
    let _ = fs.remove_file_key(&wkey);
}

/// Whether a whiteout file hides this path.
pub fn has_white_out<F: FileSystem>(fs: &F, path: &str) -> (r: bool)
    requires
        fs.fs_inv(),
    ensures
        r == (match path_key(path@) {
            Some(k) => k.len() > 0 && fs.fs_model().contains_key(wh_key(k)),
            None => false,
        }),
{
    let key = match clean_components(path) {
        Ok(key) => key,
        Err(_) => {
            return false;
        },
    };
    if key.len() == 0 {
        proof {
            assert(key.deep_view().len() == 0);
        }
        return false;
    }
    proof {
        assert(key.deep_view().len() > 0);
    }
    let wkey = whiteout_key(&key);
    fs.metadata_key(&wkey).is_some()
}

/// Update a file's existence: creates the file if it is missing, and
/// leaves an existing file as it is.
pub fn touch<F: FileSystem>(fs: &mut F, path: &str) -> (r: Result<(), FsError>)
    requires
        old(fs).fs_inv(),
    ensures
        final(fs).fs_inv(),
        ({
            let m = old(fs).fs_model();
            match path_key(path@) {
                None => r matches Err(FsError::InvalidInput) && final(fs).fs_model() == m,
                Some(k) => if k.len() == 0 {
                    r is Err && final(fs).fs_model() == m
                } else if m.contains_key(k) && m[k] is Directory {
                    r matches Err(FsError::BaseNotDirectory) && final(fs).fs_model() == m
                } else if m.contains_key(k) {
                    r matches Ok(u) && final(fs).fs_model() == m
                } else if k.len() > 1 && !m.contains_key(k.drop_last()) {
                    r matches Err(FsError::EntryNotFound) && final(fs).fs_model() == m
                } else if k.len() > 1 && m[k.drop_last()] is File {
                    r matches Err(FsError::BaseNotDirectory) && final(fs).fs_model() == m
                } else {
                    r matches Ok(u) && final(fs).fs_model() == m.insert(k, FileKind::File)
                },
            }
        }),
{
    let key = match clean_components(path) {
        Ok(key) => key,
        Err(_) => {
            return Err(FsError::InvalidInput);
        },
    };
    fs.create_file_key(&key, false)
}


/// The number of trailing separators of a path.
pub open spec fn trailing_slashes(s: Seq<char>) -> int
    decreases s.len(),
{
    if s.len() == 0 || s.last() != '/' {
        0
    } else {
        1 + trailing_slashes(s.drop_last())
    }
}

/// The position just after the last separator of a path (0 with none).
pub open spec fn after_last_slash(s: Seq<char>) -> int
    decreases s.len(),
{
    if s.len() == 0 {
        0
    } else if s.last() == '/' {
        s.len() as int
    } else {
        after_last_slash(s.drop_last())
    }
}

/// The trailing-separator count marks the last non-separator.
proof fn lemma_trailing_slashes(s: Seq<char>)
    ensures
        0 <= trailing_slashes(s) <= s.len(),
        forall|i: int| s.len() - trailing_slashes(s) <= i < s.len() ==> s[i] == '/',
        trailing_slashes(s) < s.len() ==> s[s.len() - trailing_slashes(s) - 1] != '/',
    decreases s.len(),
{
    if s.len() > 0 && s.last() == '/' {
        let t = s.drop_last();
        lemma_trailing_slashes(t);
        assert forall|i: int| s.len() - trailing_slashes(s) <= i < s.len() - 1 implies s[i]
            == '/' by {
            assert(s[i] == t[i]);
        }
    }
}

/// The after-last-separator position splits the path at its file name.
proof fn lemma_after_last_slash(s: Seq<char>)
    ensures
        0 <= after_last_slash(s) <= s.len(),
        forall|i: int| after_last_slash(s) <= i < s.len() ==> s[i] != '/',
        after_last_slash(s) > 0 ==> s[after_last_slash(s) - 1] == '/',
    decreases s.len(),
{
    if s.len() > 0 && s.last() != '/' {
        let t = s.drop_last();
        lemma_after_last_slash(t);
        assert forall|i: int| after_last_slash(s) <= i < s.len() - 1 implies s[i] != '/' by {
            assert(s[i] == t[i]);
        }
    }
}

/// Whether a component carries the whiteout marker.
pub open spec fn has_wh_prefix(s: Seq<char>) -> bool {
    s.len() >= 4 && s.subrange(0, 4) == ".wh."@
}

/// The path a whiteout file hides, textually: trailing separators are
/// ignored, the marker is recognised on the last written component, and
/// the marker is stripped in place — the rest of the path is returned
/// exactly as written. A bare marker with nothing after it names no
/// entry and is not recognised.
pub open spec fn wh_stripped(s: Seq<char>) -> Option<Seq<char>> {
    let t = s.subrange(0, s.len() - trailing_slashes(s));
    let cut = after_last_slash(t);
    let name = t.subrange(cut, t.len() as int);
    if t.len() > 0 && name.len() > 4 && has_wh_prefix(name) {
        Some(t.subrange(0, cut) + name.subrange(4, name.len() as int))
    } else {
        None
    }
}

/// If the path names a whiteout file, the path it hides: the same path
/// with the marker stripped from its last written component.
pub fn is_white_out(path: &str) -> (r: Option<String>)
    ensures
        match wh_stripped(path@) {
            Some(q) => r matches Some(p) && p@ == q,
            None => r is None,
        },
{
    let chars = str_chars(path);
    proof {
        lemma_trailing_slashes(chars@);
    }
    // Strip trailing separators.
    let mut tend: usize = chars.len();
    while tend > 0 && chars[tend - 1] == '/'
        invariant
            tend <= chars@.len(),
            forall|i: int| tend <= i < chars@.len() ==> chars@[i] == '/',
        decreases tend,
    {
        tend = tend - 1;
    }
    proof {
        assert(tend as int == chars@.len() - trailing_slashes(chars@));
    }
    if tend == 0 {
        proof {
            assert(chars@.subrange(0, 0).len() == 0);
        }
        return None;
    }
    let ghost t = chars@.subrange(0, tend as int);
    proof {
        lemma_after_last_slash(t);
    }
    // Find the last separator before the file name.
    let mut cut: usize = tend;
    while cut > 0 && chars[cut - 1] != '/'
        invariant
            cut <= tend,
            tend <= chars@.len(),
            t == chars@.subrange(0, tend as int),
            forall|i: int| cut <= i < tend ==> t[i] != '/',
        decreases cut,
    {
        proof {
            assert(t[cut - 1] == chars@[cut - 1]);
        }
        cut = cut - 1;
    }
    proof {
        if cut > 0 {
            assert(t[cut - 1] == chars@[cut - 1]);
        }
        assert(cut as int == after_last_slash(t));
    }
    let ghost name = t.subrange(cut as int, t.len() as int);
    if tend - cut <= 4 {
        proof {
            assert(name.len() <= 4);
        }
        return None;
    }
    let marker = str_chars(".wh.");
    let head = crate::text::vec_slice(&chars, cut, cut + 4);
    proof {
        assert(head@ =~= name.subrange(0, 4));
    }
    if !chars_eq(&head, &marker) {
        proof {
            assert(!has_wh_prefix(name));
        }
        return None;
    }
    proof {
        assert(has_wh_prefix(name));
    }
    let mut out: Vec<char> = Vec::new();
    let mut i: usize = 0;
    while i < cut
        invariant
            cut <= tend <= chars@.len(),
            i <= cut,
            out@ == chars@.subrange(0, i as int),
        decreases cut - i,
    {
        out.push(chars[i]);
        i = i + 1;
        proof {
            assert(out@ =~= chars@.subrange(0, i as int));
        }
    }
    let mut i: usize = cut + 4;
    while i < tend
        invariant
            cut + 4 <= i <= tend,
            tend <= chars@.len(),
            out@ == chars@.subrange(0, cut as int) + chars@.subrange(cut + 4, i as int),
        decreases tend - i,
    {
        out.push(chars[i]);
        i = i + 1;
        proof {
            assert(out@ =~= chars@.subrange(0, cut as int) + chars@.subrange(
                cut + 4,
                i as int,
            ));
        }
    }
    proof {
        assert(t.subrange(0, cut as int) =~= chars@.subrange(0, cut as int));
        assert(name.subrange(4, name.len() as int) =~= chars@.subrange(cut + 4, tend as int));
        assert(out@ =~= t.subrange(0, cut as int) + name.subrange(4, name.len() as int));
    }
    Some(chars_to_string(&out))
}

} // verus!
// The module ends: recursive listing.

verus! {

/// An entry with this key occurs in the list.
pub open spec fn listed(entries: Seq<DirEntry>, p: Seq<Seq<char>>) -> bool {
    exists|i: int| 0 <= i < entries.len() && (#[trigger] entries[i]).path.deep_view() == p
}

/// Every direct child of each directory in the list occurs in the list
/// too. Together with the clause on the starting directory's children
/// this pins the whole recursive listing, level by level.
pub open spec fn children_listed(entries: Seq<DirEntry>, m: Map<Seq<Seq<char>>, FileKind>) -> bool {
    forall|i: int, p: Seq<Seq<char>>|
        0 <= i < entries.len() && (#[trigger] entries[i]).kind is Directory
            && #[trigger] m.contains_key(p) && p.len() == entries[i].path.deep_view().len() + 1
            && p.drop_last() == entries[i].path.deep_view() ==> listed(entries, p)
}

/// Each direct child of a directory already handed out is either
/// handed out too or still waiting in one of the two worklists.
spec fn children_covered(
    done: Seq<DirEntry>,
    pending: Seq<DirEntry>,
    rest: Seq<DirEntry>,
    m: Map<Seq<Seq<char>>, FileKind>,
) -> bool {
    forall|i: int, p: Seq<Seq<char>>|
        0 <= i < done.len() && (#[trigger] done[i]).kind is Directory
            && #[trigger] m.contains_key(p) && p.len() == done[i].path.deep_view().len() + 1
            && p.drop_last() == done[i].path.deep_view() ==> listed(done, p) || listed(pending, p)
            || listed(rest, p)
}

/// A copy of one listed entry.
fn clone_entry(e: &DirEntry) -> (r: DirEntry)
    ensures
        r.path.deep_view() == e.path.deep_view(),
        r.kind == e.kind,
{
    DirEntry { path: crate::text::clone_strings(&e.path), kind: e.kind }
}

/// Recursively lists the entries under a directory, depth first,
/// ignoring any errors along the way. Every listed entry is in the
/// filesystem, and unless the listing is truncated at the address
/// space's bound, every direct child of the start is listed and every
/// directory in the list has all its children in the list, which
/// reaches every descendant level by level.
pub fn walk<F: FileSystem>(fs: &F, path: &str) -> (r: Vec<DirEntry>)
    requires
        fs.fs_inv(),
    ensures
        forall|i: int|
            0 <= i < r@.len() ==> fs.fs_model().contains_key(
                (#[trigger] r@[i]).path.deep_view(),
            ) && fs.fs_model()[r@[i].path.deep_view()] == r@[i].kind,
        ({
            let m = fs.fs_model();
            match path_key(path@) {
                Some(k) => (k.len() == 0 || (m.contains_key(k) && m[k] is Directory))
                    && r@.len() < usize::MAX ==> forall|p: Seq<Seq<char>>|
                    #[trigger] m.contains_key(p) && p.len() == k.len() + 1 && p.drop_last()
                        == k ==> listed(r@, p),
                None => r@.len() == 0,
            }
        }),
        r@.len() < usize::MAX ==> children_listed(r@, fs.fs_model()),
{
    let ghost m = fs.fs_model();
    let key = match clean_components(path) {
        Ok(key) => key,
        Err(_) => {
            return Vec::new();
        },
    };
    let ghost k = key.deep_view();
    let mut queue: Vec<DirEntry> = match fs.read_dir_key(&key) {
        Ok(entries) => entries,
        Err(_) => {
            return Vec::new();
        },
    };
    let mut out: Vec<DirEntry> = Vec::new();
    let mut budget: usize = usize::MAX;
    while queue.len() > 0 && budget > 0
        invariant
            fs.fs_inv(),
            m == fs.fs_model(),
            budget as int + out@.len() == usize::MAX as int,
            forall|i: int|
                0 <= i < out@.len() ==> m.contains_key((#[trigger] out@[i]).path.deep_view())
                    && m[out@[i].path.deep_view()] == out@[i].kind,
            forall|i: int|
                0 <= i < queue@.len() ==> m.contains_key(
                    (#[trigger] queue@[i]).path.deep_view(),
                ) && m[queue@[i].path.deep_view()] == queue@[i].kind,
            forall|p: Seq<Seq<char>>|
                #[trigger] m.contains_key(p) && p.len() == k.len() + 1 && p.drop_last() == k
                    ==> listed(out@, p) || listed(queue@, p),
            children_covered(out@, queue@, Seq::<DirEntry>::empty(), m),
        decreases budget,
    {
        let ghost prevq = queue@;
        let ghost prevo = out@;
        let entry = match queue.pop() {
            Some(e) => e,
            None => {
                proof {
                    assert(false);
                }
                unreached()
            },
        };
        proof {
            assert(queue@ == prevq.drop_last());
            assert(entry == prevq[prevq.len() - 1]);
        }
        let ghost epath = entry.path.deep_view();
        let ghost ekind = entry.kind;
        let listing = fs.read_dir_key(&entry.path);
        out.push(entry);
        budget = budget - 1;
        proof {
            assert(out@ == prevo.push(prevq[prevq.len() - 1]));
            assert forall|p: Seq<Seq<char>>|
                #[trigger] m.contains_key(p) && p.len() == k.len() + 1 && p.drop_last() == k
                implies listed(out@, p) || listed(queue@, p) by {
                if listed(prevq, p) && !listed(queue@, p) {
                    // the only removed entry is the one moved to `out`
                    if !listed(prevo, p) {
                        let i = choose|i: int|
                            0 <= i < prevq.len() && (#[trigger] prevq[i]).path.deep_view()
                                == p;
                        if i < prevq.len() - 1 {
                            assert(exists|i2: int|
                                0 <= i2 < queue@.len() && (#[trigger] queue@[
                                i2]).path.deep_view() == p) by {
                                assert(queue@[i].path.deep_view() == p);
                            }
                        } else {
                            assert(out@[out@.len() - 1].path.deep_view() == p);
                        }
                    } else {
                        let i = choose|i: int|
                            0 <= i < prevo.len() && (#[trigger] prevo[i]).path.deep_view()
                                == p;
                        assert(out@[i].path.deep_view() == p);
                    }
                } else if listed(prevo, p) {
                    let i = choose|i: int|
                        0 <= i < prevo.len() && (#[trigger] prevo[i]).path.deep_view() == p;
                    assert(out@[i].path.deep_view() == p);
                }
            }
        }
        match listing {
            Ok(children) => {
                let mut ci: usize = 0;
                proof {
                    assert(children@.subrange(0, children@.len() as int) =~= children@);
                    assert forall|i: int, p: Seq<Seq<char>>|
                        0 <= i < out@.len() && (#[trigger] out@[i]).kind is Directory
                            && #[trigger] m.contains_key(p) && p.len()
                            == out@[i].path.deep_view().len() + 1 && p.drop_last()
                            == out@[i].path.deep_view() implies listed(out@, p) || listed(
                        queue@,
                        p,
                    ) || listed(children@.subrange(0, children@.len() as int), p) by {
                        if i < prevo.len() {
                            assert(out@[i] == prevo[i]);
                            if listed(prevo, p) {
                                let w = choose|w: int|
                                    0 <= w < prevo.len() && (#[trigger] prevo[
                                    w]).path.deep_view() == p;
                                assert(out@[w].path.deep_view() == p);
                            } else if listed(prevq, p) {
                                let w = choose|w: int|
                                    0 <= w < prevq.len() && (#[trigger] prevq[
                                    w]).path.deep_view() == p;
                                if w < prevq.len() - 1 {
                                    assert(queue@[w].path.deep_view() == p);
                                } else {
                                    assert(out@[out@.len() - 1].path.deep_view() == p);
                                }
                            }
                        } else {
                            // The entry just handed out: its listing named
                            // every one of its children.
                            assert(out@[i].path.deep_view() == epath);
                            let w = choose|w: int|
                                0 <= w < children@.len() && (#[trigger] children@[
                                w]).path.deep_view() == p;
                            assert(children@.subrange(0, children@.len() as int)[
                            w].path.deep_view() == p);
                        }
                    }
                }
                while ci < children.len()
                    invariant
                        fs.fs_inv(),
                        m == fs.fs_model(),
                        ci <= children@.len(),
                        forall|i: int|
                            0 <= i < children@.len() ==> m.contains_key(
                                (#[trigger] children@[i]).path.deep_view(),
                            ) && m[children@[i].path.deep_view()] == children@[i].kind,
                        forall|i: int|
                            0 <= i < queue@.len() ==> m.contains_key(
                                (#[trigger] queue@[i]).path.deep_view(),
                            ) && m[queue@[i].path.deep_view()] == queue@[i].kind,
                        forall|p: Seq<Seq<char>>|
                            #[trigger] m.contains_key(p) && p.len() == k.len() + 1
                                && p.drop_last() == k ==> listed(out@, p) || listed(queue@, p),
                        children_covered(
                            out@,
                            queue@,
                            children@.subrange(ci as int, children@.len() as int),
                            m,
                        ),
                    decreases children@.len() - ci,
                {
                    let ghost prevq2 = queue@;
                    let ghost prevci = ci as int;
                    proof {
                        assert(children@[ci as int].path.deep_view() == children[
                        ci as int].path.deep_view());
                    }
                    let c = clone_entry(&children[ci]);
                    let ghost cv = c.path.deep_view();
                    queue.push(c);
                    ci = ci + 1;
                    proof {
                        assert forall|p: Seq<Seq<char>>|
                            #[trigger] m.contains_key(p) && p.len() == k.len() + 1
                                && p.drop_last() == k implies listed(out@, p) || listed(
                            queue@,
                            p,
                        ) by {
                            if listed(prevq2, p) {
                                let i = choose|i: int|
                                    0 <= i < prevq2.len() && (#[trigger] prevq2[
                                    i]).path.deep_view() == p;
                                assert(queue@[i].path.deep_view() == p);
                            }
                        }
                        assert forall|i: int, p: Seq<Seq<char>>|
                            0 <= i < out@.len() && (#[trigger] out@[i]).kind is Directory
                                && #[trigger] m.contains_key(p) && p.len()
                                == out@[i].path.deep_view().len() + 1 && p.drop_last()
                                == out@[i].path.deep_view() implies listed(out@, p) || listed(
                            queue@,
                            p,
                        ) || listed(
                            children@.subrange(ci as int, children@.len() as int),
                            p,
                        ) by {
                            if !listed(out@, p) {
                                if listed(prevq2, p) {
                                    let w = choose|w: int|
                                        0 <= w < prevq2.len() && (#[trigger] prevq2[
                                        w]).path.deep_view() == p;
                                    assert(queue@[w].path.deep_view() == p);
                                } else {
                                    assert(listed(
                                        children@.subrange(prevci, children@.len() as int),
                                        p,
                                    ));
                                    let rest = children@.subrange(
                                        prevci,
                                        children@.len() as int,
                                    );
                                    let w = choose|w: int|
                                        0 <= w < rest.len() && (#[trigger] rest[
                                        w]).path.deep_view() == p;
                                    if w == 0 {
                                        assert(rest[0] == children@[prevci]);
                                        assert(queue@[queue@.len() - 1].path.deep_view()
                                            == p);
                                    } else {
                                        assert(children@.subrange(
                                            ci as int,
                                            children@.len() as int,
                                        )[w - 1].path.deep_view() == p);
                                    }
                                }
                            }
                        }
                    }
                }
                proof {
                    assert(children@.subrange(
                        children@.len() as int,
                        children@.len() as int,
                    ) =~= Seq::<DirEntry>::empty());
                }
            },
            Err(_) => {
                proof {
                    assert forall|i: int, p: Seq<Seq<char>>|
                        0 <= i < out@.len() && (#[trigger] out@[i]).kind is Directory
                            && #[trigger] m.contains_key(p) && p.len()
                            == out@[i].path.deep_view().len() + 1 && p.drop_last()
                            == out@[i].path.deep_view() implies listed(out@, p) || listed(
                        queue@,
                        p,
                    ) || listed(Seq::<DirEntry>::empty(), p) by {
                        if i < prevo.len() {
                            assert(out@[i] == prevo[i]);
                            if listed(prevo, p) {
                                let w = choose|w: int|
                                    0 <= w < prevo.len() && (#[trigger] prevo[
                                    w]).path.deep_view() == p;
                                assert(out@[w].path.deep_view() == p);
                            } else if listed(prevq, p) {
                                let w = choose|w: int|
                                    0 <= w < prevq.len() && (#[trigger] prevq[
                                    w]).path.deep_view() == p;
                                if w < prevq.len() - 1 {
                                    assert(queue@[w].path.deep_view() == p);
                                } else {
                                    assert(out@[out@.len() - 1].path.deep_view() == p);
                                }
                            }
                        } else {
                            // A directory's listing cannot have failed.
                            assert(out@[i].path.deep_view() == epath);
                            assert(m.contains_key(epath) && m[epath] == ekind);
                            assert(false);
                        }
                    }
                }
            },
        }
    }
    proof {
        if out@.len() < usize::MAX {
            assert(queue@.len() == 0);
            assert forall|i: int, p: Seq<Seq<char>>|
                0 <= i < out@.len() && (#[trigger] out@[i]).kind is Directory
                    && #[trigger] m.contains_key(p) && p.len() == out@[i].path.deep_view().len()
                    + 1 && p.drop_last() == out@[i].path.deep_view() implies listed(
                out@,
                p,
            ) by {
                assert(listed(out@, p) || listed(queue@, p) || listed(
                    Seq::<DirEntry>::empty(),
                    p,
                ));
            }
            assert(children_listed(out@, m));
        }
    }
    out
}

} // verus!
