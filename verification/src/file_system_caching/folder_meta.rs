use vstd::prelude::*;

verus! {

use vstd::string::StrSliceExecFns;
use vstd::string::StringExecFns;

use crate::cleaning::mark_for_deletion::list_contains_ext;
use crate::text::lex_le;
use crate::text::str_eq_str;
use crate::text::str_le;
use crate::utils::file_name_of;
use crate::utils::file_name_spec;

/// Which per-file fact orders a folder's file listing.
pub enum SortKey {
    FileName,
    Size,
    LastModified,
}

/// The facts kept per file for sorting and display: its name, size in bytes,
/// modification time in seconds since the Unix epoch when known, and its
/// extension when it has one.
pub struct FileSortKeys {
    pub file_name: String,
    pub size: u64,
    pub last_modified: Option<u64>,
    pub extension: Option<String>,
}

/// The order each sort key induces; an unknown modification time sorts first.
pub open spec fn file_le(a: FileSortKeys, b: FileSortKeys, key: SortKey) -> bool {
    match key {
        SortKey::FileName => lex_le(a.file_name@, b.file_name@),
        SortKey::Size => a.size <= b.size,
        SortKey::LastModified => match (a.last_modified, b.last_modified) {
            (Option::None, _) => true,
            (Option::Some(_), Option::None) => false,
            (Option::Some(x), Option::Some(y)) => x <= y,
        },
    }
}

/// Inserts a file into a sorted listing, before the first file it precedes
/// or ties with. Since `sort_files_spec` inserts every file into the sorted
/// rest of the listing, a file thereby lands ahead of later files with an
/// equal key: the sort is stable.
pub open spec fn insert_file(x: FileSortKeys, s: Seq<FileSortKeys>, key: SortKey) -> Seq<
    FileSortKeys,
>
    decreases s.len(),
{
    if s.len() == 0 {
        seq![x]
    } else if !file_le(x, s[0], key) {
        seq![s[0]] + insert_file(x, s.drop_first(), key)
    } else {
        seq![x] + s
    }
}

/// Stable insertion sort of a file listing under the given key.
pub open spec fn sort_files_spec(s: Seq<FileSortKeys>, key: SortKey) -> Seq<FileSortKeys>
    decreases s.len(),
{
    if s.len() == 0 {
        s
    } else {
        insert_file(s[0], sort_files_spec(s.drop_first(), key), key)
    }
}

/// A listing is sorted when no file precedes an earlier one.
pub open spec fn files_sorted(s: Seq<FileSortKeys>, key: SortKey) -> bool {
    forall|i: int, j: int|
        0 <= i < j < s.len() ==> file_le(#[trigger] s[i], #[trigger] s[j], key)
}

/// Any two files are comparable under any key.
proof fn lemma_file_le_total(a: FileSortKeys, b: FileSortKeys, key: SortKey)
    ensures
        file_le(a, b, key) || file_le(b, a, key),
{
    match key {
        SortKey::FileName => {
            crate::text::lemma_lex_le_total(a.file_name@, b.file_name@);
        },
        SortKey::Size => {
        },
        SortKey::LastModified => {
        },
    }
}

/// The order of each key is transitive.
proof fn lemma_file_le_trans(a: FileSortKeys, b: FileSortKeys, c: FileSortKeys, key: SortKey)
    requires
        file_le(a, b, key),
        file_le(b, c, key),
    ensures
        file_le(a, c, key),
{
    match key {
        SortKey::FileName => {
            crate::text::lemma_lex_le_trans(a.file_name@, b.file_name@, c.file_name@);
        },
        SortKey::Size => {
        },
        SortKey::LastModified => {
        },
    }
}

proof fn lemma_insert_file_elements(x: FileSortKeys, s: Seq<FileSortKeys>, key: SortKey)
    ensures
        forall|k: int|
            0 <= k < insert_file(x, s, key).len() ==> (#[trigger] insert_file(x, s, key)[k] == x
                || exists|i: int| 0 <= i < s.len() && s[i] == insert_file(x, s, key)[k]),
    decreases s.len(),
{
    let t = insert_file(x, s, key);
    if s.len() == 0 {
        assert(t[0] == x);
    } else if !file_le(x, s[0], key) {
        lemma_insert_file_elements(x, s.drop_first(), key);
        let u = insert_file(x, s.drop_first(), key);
        assert forall|k: int| 0 <= k < t.len() implies (#[trigger] t[k] == x || exists|i: int|
            0 <= i < s.len() && s[i] == t[k]) by {
            if k == 0 {
                assert(s[0] == t[0]);
            } else {
                assert(t[k] == u[k - 1]);
                if u[k - 1] == x {
                } else {
                    let i = choose|i: int|
                        0 <= i < s.drop_first().len() && s.drop_first()[i] == u[k - 1];
                    assert(s[i + 1] == t[k]);
                }
            }
        }
    } else {
        assert forall|k: int| 0 <= k < t.len() implies (#[trigger] t[k] == x || exists|i: int|
            0 <= i < s.len() && s[i] == t[k]) by {
            if k == 0 {
                assert(t[0] == x);
            } else {
                assert(s[k - 1] == t[k]);
            }
        }
    }
}

proof fn lemma_insert_file_sorted(x: FileSortKeys, s: Seq<FileSortKeys>, key: SortKey)
    requires
        files_sorted(s, key),
    ensures
        files_sorted(insert_file(x, s, key), key),
    decreases s.len(),
{
    let t = insert_file(x, s, key);
    if s.len() == 0 {
    } else if !file_le(x, s[0], key) {
        lemma_file_le_total(x, s[0], key);
        assert(file_le(s[0], x, key));
        assert(files_sorted(s.drop_first(), key)) by {
            assert forall|i: int, j: int| 0 <= i < j < s.drop_first().len() implies file_le(
                #[trigger] s.drop_first()[i],
                #[trigger] s.drop_first()[j],
                key,
            ) by {
                assert(s.drop_first()[i] == s[i + 1]);
                assert(s.drop_first()[j] == s[j + 1]);
            }
        }
        lemma_insert_file_sorted(x, s.drop_first(), key);
        lemma_insert_file_elements(x, s.drop_first(), key);
        let u = insert_file(x, s.drop_first(), key);
        assert forall|i: int, j: int| 0 <= i < j < t.len() implies file_le(
            #[trigger] t[i],
            #[trigger] t[j],
            key,
        ) by {
            if i == 0 {
                assert(t[0] == s[0]);
                assert(t[j] == u[j - 1]);
                if u[j - 1] == x {
                } else {
                    let m = choose|m: int|
                        0 <= m < s.drop_first().len() && s.drop_first()[m] == u[j - 1];
                    assert(s.drop_first()[m] == s[m + 1]);
                    assert(file_le(s[0], s[m + 1], key));
                }
            } else {
                assert(t[i] == u[i - 1]);
                assert(t[j] == u[j - 1]);
            }
        }
    } else {
        assert forall|i: int, j: int| 0 <= i < j < t.len() implies file_le(
            #[trigger] t[i],
            #[trigger] t[j],
            key,
        ) by {
            if i == 0 {
                assert(t[0] == x);
                assert(t[j] == s[j - 1]);
                if j == 1 {
                } else {
                    assert(file_le(s[0], s[j - 1], key));
                    lemma_file_le_trans(x, s[0], s[j - 1], key);
                }
            } else {
                assert(t[i] == s[i - 1]);
                assert(t[j] == s[j - 1]);
            }
        }
    }
}

/// The sorted listing is non-decreasing under the chosen key's order.
pub proof fn lemma_sort_files_sorted(s: Seq<FileSortKeys>, key: SortKey)
    ensures
        files_sorted(sort_files_spec(s, key), key),
    decreases s.len(),
{
    if s.len() > 0 {
        lemma_sort_files_sorted(s.drop_first(), key);
        lemma_insert_file_sorted(s[0], sort_files_spec(s.drop_first(), key), key);
    }
}

proof fn lemma_insert_file_multiset(x: FileSortKeys, s: Seq<FileSortKeys>, key: SortKey)
    ensures
        insert_file(x, s, key).to_multiset() == s.to_multiset().insert(x),
    decreases s.len(),
{
    broadcast use vstd::seq_lib::group_to_multiset_ensures;
    broadcast use vstd::multiset::group_multiset_axioms;
    broadcast use vstd::multiset::lemma_multiset_empty_len;

    let t = insert_file(x, s, key);
    if s.len() == 0 {
        assert(t =~= Seq::<FileSortKeys>::empty().push(x));
        assert(s =~= Seq::<FileSortKeys>::empty());
        assert(t.to_multiset() =~= s.to_multiset().insert(x));
    } else if !file_le(x, s[0], key) {
        lemma_insert_file_multiset(x, s.drop_first(), key);
        assert(t =~= seq![s[0]] + insert_file(x, s.drop_first(), key));
        vstd::seq_lib::lemma_multiset_commutative(seq![s[0]], insert_file(x, s.drop_first(), key));
        assert(s =~= seq![s[0]] + s.drop_first());
        vstd::seq_lib::lemma_multiset_commutative(seq![s[0]], s.drop_first());
        assert(t.to_multiset() =~= s.to_multiset().insert(x));
    } else {
        assert(t =~= seq![x] + s);
        vstd::seq_lib::lemma_multiset_commutative(seq![x], s);
        assert(seq![x] =~= Seq::<FileSortKeys>::empty().push(x));
        assert(t.to_multiset() =~= s.to_multiset().insert(x));
    }
}

/// Sorting permutes the listing: the files and their multiplicities are kept.
pub proof fn lemma_sort_files_permutes(s: Seq<FileSortKeys>, key: SortKey)
    ensures
        sort_files_spec(s, key).to_multiset() == s.to_multiset(),
    decreases s.len(),
{
    broadcast use vstd::seq_lib::group_to_multiset_ensures;
    broadcast use vstd::multiset::group_multiset_axioms;

    if s.len() > 0 {
        lemma_sort_files_permutes(s.drop_first(), key);
        lemma_insert_file_multiset(s[0], sort_files_spec(s.drop_first(), key), key);
        assert(s =~= seq![s[0]] + s.drop_first());
        vstd::seq_lib::lemma_multiset_commutative(seq![s[0]], s.drop_first());
        assert(seq![s[0]] =~= Seq::<FileSortKeys>::empty().push(s[0]));
        assert(sort_files_spec(s, key).to_multiset() =~= s.to_multiset());
    }
}

/// Two files tie when neither precedes the other under the key.
pub open spec fn files_tied(a: FileSortKeys, b: FileSortKeys, key: SortKey) -> bool {
    file_le(a, b, key) && file_le(b, a, key)
}

/// The files of a listing that tie with `pivot`, in listing order.
pub open spec fn tied_run(s: Seq<FileSortKeys>, pivot: FileSortKeys, key: SortKey) -> Seq<
    FileSortKeys,
>
    decreases s.len(),
{
    if s.len() == 0 {
        Seq::empty()
    } else {
        (if files_tied(s[0], pivot, key) {
            seq![s[0]]
        } else {
            Seq::empty()
        }) + tied_run(s.drop_first(), pivot, key)
    }
}

proof fn lemma_insert_file_tied_run(
    x: FileSortKeys,
    s: Seq<FileSortKeys>,
    key: SortKey,
    pivot: FileSortKeys,
)
    ensures
        tied_run(insert_file(x, s, key), pivot, key) == (if files_tied(x, pivot, key) {
            seq![x] + tied_run(s, pivot, key)
        } else {
            tied_run(s, pivot, key)
        }),
    decreases s.len(),
{
    let t = insert_file(x, s, key);
    if s.len() == 0 {
        assert(t[0] == x);
        assert(t.drop_first() =~= Seq::<FileSortKeys>::empty());
        assert(tied_run(t.drop_first(), pivot, key) =~= Seq::<FileSortKeys>::empty());
        if files_tied(x, pivot, key) {
            assert(tied_run(t, pivot, key) =~= seq![x] + tied_run(s, pivot, key));
        } else {
            assert(tied_run(t, pivot, key) =~= tied_run(s, pivot, key));
        }
    } else if !file_le(x, s[0], key) {
        lemma_insert_file_tied_run(x, s.drop_first(), key, pivot);
        let u = insert_file(x, s.drop_first(), key);
        assert(t[0] == s[0]);
        assert(t.drop_first() =~= u);
        assert(tied_run(t, pivot, key) == (if files_tied(s[0], pivot, key) {
            seq![s[0]]
        } else {
            Seq::<FileSortKeys>::empty()
        }) + tied_run(u, pivot, key));
        if files_tied(x, pivot, key) {
            if files_tied(s[0], pivot, key) {
                lemma_file_le_trans(x, pivot, s[0], key);
                assert(false);
            }
            assert(tied_run(t, pivot, key) =~= seq![x] + tied_run(s, pivot, key));
        } else {
            assert(tied_run(t, pivot, key) =~= tied_run(s, pivot, key));
        }
    } else {
        assert(t[0] == x);
        assert(t.drop_first() =~= s);
        if files_tied(x, pivot, key) {
            assert(tied_run(t, pivot, key) =~= seq![x] + tied_run(s, pivot, key));
        } else {
            assert(tied_run(t, pivot, key) =~= tied_run(s, pivot, key));
        }
    }
}

/// Sorting is stable: the files that tie with any pivot come out in the
/// order the listing held them.
pub proof fn lemma_sort_files_stable(s: Seq<FileSortKeys>, key: SortKey, pivot: FileSortKeys)
    ensures
        tied_run(sort_files_spec(s, key), pivot, key) == tied_run(s, pivot, key),
    decreases s.len(),
{
    if s.len() > 0 {
        lemma_sort_files_stable(s.drop_first(), key, pivot);
        lemma_insert_file_tied_run(s[0], sort_files_spec(s.drop_first(), key), key, pivot);
        if files_tied(s[0], pivot, key) {
            assert(tied_run(sort_files_spec(s, key), pivot, key) =~= tied_run(s, pivot, key));
        } else {
            assert(tied_run(sort_files_spec(s, key), pivot, key) =~= tied_run(s, pivot, key));
        }
    }
}

fn file_le_exec(a: &FileSortKeys, b: &FileSortKeys, key: &SortKey) -> (r: bool)
    ensures
        r == file_le(*a, *b, *key),
{
    match key {
        SortKey::FileName => str_le(a.file_name.as_str(), b.file_name.as_str()),
        SortKey::Size => a.size <= b.size,
        SortKey::LastModified => match (&a.last_modified, &b.last_modified) {
            (Option::None, _) => true,
            (Option::Some(_), Option::None) => false,
            (Option::Some(x), Option::Some(y)) => *x <= *y,
        },
    }
}

proof fn lemma_insert_file_at(s: Seq<FileSortKeys>, x: FileSortKeys, key: SortKey, j: int)
    requires
        0 <= j <= s.len(),
        forall|i: int| 0 <= i < j ==> !file_le(x, #[trigger] s[i], key),
        j < s.len() ==> file_le(x, s[j], key),
    ensures
        insert_file(x, s, key) == s.insert(j, x),
    decreases j,
{
    if j == 0 {
        if s.len() == 0 {
            assert(insert_file(x, s, key) =~= s.insert(0, x));
        } else {
            assert(insert_file(x, s, key) == seq![x] + s);
            assert(seq![x] + s =~= s.insert(0, x));
        }
    } else {
        assert(!file_le(x, s[0], key));
        assert forall|i: int| 0 <= i < j - 1 implies !file_le(
            x,
            #[trigger] s.drop_first()[i],
            key,
        ) by {
            assert(s.drop_first()[i] == s[i + 1]);
        }
        assert(j - 1 < s.drop_first().len() ==> file_le(x, s.drop_first()[j - 1], key));
        lemma_insert_file_at(s.drop_first(), x, key, j - 1);
        assert(insert_file(x, s, key) == seq![s[0]] + s.drop_first().insert(j - 1, x));
        assert(seq![s[0]] + s.drop_first().insert(j - 1, x) =~= s.insert(j, x));
    }
}

fn insert_file_sorted(sorted: &mut Vec<FileSortKeys>, x: FileSortKeys, key: &SortKey)
    ensures
        final(sorted)@ == insert_file(x, old(sorted)@, *key),
{
    let mut j: usize = 0;
    while j < sorted.len() && !file_le_exec(&x, &sorted[j], key)
        invariant
            j <= sorted@.len(),
            sorted@ == old(sorted)@,
            forall|i: int| 0 <= i < j ==> !file_le(x, #[trigger] sorted@[i], *key),
        decreases sorted@.len() - j,
    {
        j = j + 1;
    }
    proof {
        lemma_insert_file_at(sorted@, x, *key, j as int);
    }
    sorted.insert(j, x);
}

/// What one folder holds, as cached between scans: its subfolder names, the
/// total size of its direct files, the files themselves, and the set of
/// extensions seen among them, each extension recorded once.
pub struct FolderMetadata {
    pub subfolders: Vec<String>,
    pub folder_size: u64,
    pub files: Vec<FileSortKeys>,
    pub file_extensions: Vec<String>,
}

impl FolderMetadata {
    /// Well-formedness: each extension is recorded at most once.
    pub open spec fn wf(&self) -> bool {
        forall|i: int, j: int|
            0 <= i < j < self.file_extensions@.len() ==> (#[trigger] self.file_extensions@[i])@
                != (#[trigger] self.file_extensions@[j])@
    }

    /// An empty record, ready for a scan.
    pub fn new() -> (r: Self)
        ensures
            r.subfolders@.len() == 0,
            r.folder_size == 0,
            r.files@.len() == 0,
            r.file_extensions@.len() == 0,
            r.wf(),
    {
        Default::default()
    }

    /// Reorders the file listing under the given key; nothing else changes.
    pub fn sort_files(&mut self, sort_key: SortKey)
        ensures
            final(self).files@ == sort_files_spec(old(self).files@, sort_key),
            final(self).subfolders == old(self).subfolders,
            final(self).folder_size == old(self).folder_size,
            final(self).file_extensions == old(self).file_extensions,
            old(self).wf() ==> final(self).wf(),
    {
        let ghost orig = self.files@;
        let mut rest: Vec<FileSortKeys> = Vec::new();
        core::mem::swap(&mut rest, &mut self.files);
        let mut sorted: Vec<FileSortKeys> = Vec::new();
        proof {
            assert(orig.skip(orig.len() as int) =~= Seq::<FileSortKeys>::empty());
        }
        while rest.len() > 0
            invariant
                rest@.len() <= orig.len(),
                rest@ == orig.take(rest@.len() as int),
                sorted@ == sort_files_spec(orig.skip(rest@.len() as int), sort_key),
            decreases rest@.len(),
        {
            let ghost k = rest@.len() as int;
            let x = rest.pop().unwrap();
            proof {
                assert(rest@ =~= orig.take(k - 1));
                assert(x == orig[k - 1]);
                assert(orig.skip(k - 1)[0] == orig[k - 1]);
                assert(orig.skip(k - 1).drop_first() =~= orig.skip(k));
            }
            insert_file_sorted(&mut sorted, x, &sort_key);
            proof {
                assert(sort_files_spec(orig.skip(k - 1), sort_key) == insert_file(
                    orig[k - 1],
                    sort_files_spec(orig.skip(k), sort_key),
                    sort_key,
                ));
            }
        }
        proof {
            assert(orig.skip(0) =~= orig);
            assert(orig.take(0) =~= Seq::<FileSortKeys>::empty());
        }
        self.files = sorted;
    }

    /// Accounts one scanned file: its size joins the folder total, it joins
    /// the listing, and a new extension joins the extension set.
    pub fn record_file(&mut self, file: FileSortKeys)
        requires
            old(self).folder_size + file.size <= u64::MAX,
            old(self).wf(),
        ensures
            final(self).folder_size == old(self).folder_size + file.size,
            final(self).files@ == old(self).files@.push(file),
            final(self).subfolders == old(self).subfolders,
            final(self).wf(),
            match file.extension {
                Some(ext) => if list_contains_ext(old(self).file_extensions@, ext@) {
                    final(self).file_extensions == old(self).file_extensions
                } else {
                    &&& final(self).file_extensions@.len() == old(self).file_extensions@.len() + 1
                    &&& forall|i: int|
                        0 <= i < old(self).file_extensions@.len() ==> #[trigger] final(
                            self
                        ).file_extensions@[i] == old(self).file_extensions@[i]
                    &&& final(self).file_extensions@.last()@ == ext@
                },
                None => final(self).file_extensions == old(self).file_extensions,
            },
    {
        self.folder_size = self.folder_size + file.size;
        match &file.extension {
            Some(ext) => {
                let mut i: usize = 0;
                let mut seen = false;
                while i < self.file_extensions.len()
                    invariant
                        i <= self.file_extensions@.len(),
                        seen == exists|j: int|
                            0 <= j < i && (#[trigger] self.file_extensions@[j])@ == ext@,
                        self.file_extensions == old(self).file_extensions,
                        self.folder_size == old(self).folder_size + file.size,
                        self.files == old(self).files,
                        self.subfolders == old(self).subfolders,
                    decreases self.file_extensions@.len() - i,
                {
                    if str_eq_str(self.file_extensions[i].as_str(), ext.as_str()) {
                        seen = true;
                    }
                    i = i + 1;
                }
                if !seen {
                    let owned = ext.as_str().to_owned();
                    let ghost exts0 = self.file_extensions@;
                    self.file_extensions.push(owned);
                    proof {
                        assert forall|a: int, b: int|
                            0 <= a < b < self.file_extensions@.len() implies (
                        #[trigger] self.file_extensions@[a])@ != (
                        #[trigger] self.file_extensions@[b])@ by {
                            if b == exts0.len() {
                                assert(self.file_extensions@[a] == exts0[a]);
                            } else {
                                assert(self.file_extensions@[a] == exts0[a]);
                                assert(self.file_extensions@[b] == exts0[b]);
                            }
                        }
                    }
                }
            },
            None => {},
        }
        self.files.push(file);
    }
}

impl Default for FolderMetadata {
    /// An empty record: no subfolders, no files, no extensions, zero bytes.
    fn default() -> (r: Self)
        ensures
            r.subfolders@.len() == 0,
            r.folder_size == 0,
            r.files@.len() == 0,
            r.file_extensions@.len() == 0,
            r.wf(),
    {
        FolderMetadata {
            subfolders: Vec::new(),
            folder_size: 0,
            files: Vec::new(),
            file_extensions: Vec::new(),
        }
    }
}

/// Records one subdirectory under its bare name, read off its path.
pub fn process_directory_entry(path: &str, folder_metadata: &mut FolderMetadata)
    ensures
        final(folder_metadata).subfolders@.len() == old(folder_metadata).subfolders@.len() + 1,
        forall|i: int|
            0 <= i < old(folder_metadata).subfolders@.len() ==> #[trigger] final(
                folder_metadata
            ).subfolders@[i] == old(folder_metadata).subfolders@[i],
        final(folder_metadata).subfolders@.last()@ == file_name_spec(path@),
        final(folder_metadata).folder_size == old(folder_metadata).folder_size,
        final(folder_metadata).files == old(folder_metadata).files,
        final(folder_metadata).file_extensions == old(folder_metadata).file_extensions,
{
    let name = file_name_of(path).to_owned();
    folder_metadata.subfolders.push(name);
}

} // verus!
