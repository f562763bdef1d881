//! A hierarchical in-memory filesystem.
//!
//! A directory holds files and subdirectories, each kept in a vector ordered
//! by name, so that names are unique and listings come out sorted. The model
//! of a filesystem is a map from each directory's path (its sequence of
//! names below the root) to what that directory holds locally.
use vstd::prelude::*;
use vstd::string::*;
use crate::text::{chars_of, push_char, split_tokens, substring, tokens, Separator, lemma_lex_irreflexive, lemma_lex_total, lemma_lex_transitive, less_than, lex_lt};

verus! {

pub const INVALID_DIR_NAME: &'static str = "Invalid directory name";

pub const INVALID_FILE_NAME: &'static str = "Invalid file name";

pub const PARENT_NOT_FOUND: &'static str = "Parent directory not found";

pub const DIR_EXISTS: &'static str = "Directory already exists";

pub const FILE_NOT_FOUND: &'static str = "File not found";

pub const DIR_NOT_FOUND: &'static str = "Directory not found";

pub const DIR_NOT_EMPTY: &'static str = "Directory not empty";

// ---------------------------------------------------------------------------
// Names kept in order
// ---------------------------------------------------------------------------

/// Every name comes strictly before the next one.
pub open spec fn strictly_sorted(s: Seq<Seq<char>>) -> bool {
    forall|i: int, j: int| 0 <= i < j < s.len() ==> lex_lt(#[trigger] s[i], #[trigger] s[j])
}

/// Where `x` goes in the sorted sequence `s`: after every name not above it.
pub open spec fn sorted_pos(s: Seq<Seq<char>>, x: Seq<char>) -> nat
    decreases s.len(),
{
    if s.len() == 0 || lex_lt(x, s[0]) {
        0
    } else {
        1 + sorted_pos(s.drop_first(), x)
    }
}

/// `s` with `x` inserted in order.
pub open spec fn insert_sorted(s: Seq<Seq<char>>, x: Seq<char>) -> Seq<Seq<char>> {
    s.insert(sorted_pos(s, x) as int, x)
}

/// The names of named entries.
pub open spec fn entry_names<V>(s: Seq<(Seq<char>, V)>) -> Seq<Seq<char>> {
    s.map_values(|e: (Seq<char>, V)| e.0)
}

/// The names of named entries that hold strings.
pub open spec fn key_names<V>(s: Seq<(String, V)>) -> Seq<Seq<char>> {
    s.map_values(|e: (String, V)| e.0@)
}

/// `s` with the entry `(x, v)` inserted in name order.
pub open spec fn insert_entry<V>(s: Seq<(Seq<char>, V)>, x: Seq<char>, v: V) -> Seq<(Seq<char>, V)> {
    s.insert(sorted_pos(entry_names(s), x) as int, (x, v))
}

pub proof fn lemma_sorted_no_duplicates(s: Seq<Seq<char>>)
    requires
        strictly_sorted(s),
    ensures
        s.no_duplicates(),
{
    assert forall|i: int, j: int| 0 <= i < s.len() && 0 <= j < s.len() && i != j implies s[i]
        != s[j] by {
        if i < j {
            assert(lex_lt(s[i], s[j]));
            lemma_lex_irreflexive(s[i]);
        } else {
            assert(lex_lt(s[j], s[i]));
            lemma_lex_irreflexive(s[i]);
        }
    }
}

pub proof fn lemma_index_of_unique(s: Seq<Seq<char>>, i: int)
    requires
        s.no_duplicates(),
        0 <= i < s.len(),
    ensures
        s.contains(s[i]),
        s.index_of(s[i]) == i,
{
    assert(s[i] == s[i]);
    let j = s.index_of(s[i]);
    assert(0 <= j < s.len() && s[j] == s[i]);
}

proof fn lemma_sorted_pos(s: Seq<Seq<char>>, x: Seq<char>, k: int)
    requires
        0 <= k <= s.len(),
        forall|i: int| 0 <= i < k ==> !lex_lt(x, #[trigger] s[i]),
        k == s.len() || lex_lt(x, s[k]),
    ensures
        sorted_pos(s, x) == k,
    decreases k,
{
    if k > 0 {
        let t = s.drop_first();
        assert forall|i: int| 0 <= i < k - 1 implies !lex_lt(x, #[trigger] t[i]) by {
            assert(t[i] == s[i + 1]);
        }
        lemma_sorted_pos(t, x, k - 1);
    }
}

proof fn lemma_insert_sorted_keeps_order(s: Seq<Seq<char>>, x: Seq<char>, k: int)
    requires
        strictly_sorted(s),
        !s.contains(x),
        0 <= k <= s.len(),
        forall|i: int| 0 <= i < k ==> !lex_lt(x, #[trigger] s[i]),
        k == s.len() || lex_lt(x, s[k]),
    ensures
        strictly_sorted(s.insert(k, x)),
{
    let r = s.insert(k, x);
    assert forall|i: int| 0 <= i < k implies lex_lt(#[trigger] s[i], x) by {
        assert(s[i] != x);
        lemma_lex_total(s[i], x);
    }
    assert forall|i: int| k <= i < s.len() implies lex_lt(x, #[trigger] s[i]) by {
        if i > k {
            lemma_lex_transitive(x, s[k], s[i]);
        }
    }
    assert forall|i: int, j: int| 0 <= i < j < r.len() implies lex_lt(#[trigger] r[i], #[trigger] r[j]) by {
        if j < k {
        } else if j == k {
            assert(r[i] == s[i]);
        } else if i < k {
            assert(r[i] == s[i] && r[j] == s[j - 1]);
            lemma_lex_transitive(s[i], x, s[j - 1]);
        } else if i == k {
            assert(r[j] == s[j - 1]);
        } else {
            assert(r[i] == s[i - 1] && r[j] == s[j - 1]);
        }
    }
}

proof fn lemma_remove_keeps_order(s: Seq<Seq<char>>, k: int)
    requires
        strictly_sorted(s),
        0 <= k < s.len(),
    ensures
        strictly_sorted(s.remove(k)),
{
    let r = s.remove(k);
    assert forall|i: int, j: int| 0 <= i < j < r.len() implies lex_lt(#[trigger] r[i], #[trigger] r[j]) by {
        let i2 = if i < k { i } else { i + 1 };
        let j2 = if j < k { j } else { j + 1 };
        assert(r[i] == s[i2] && r[j] == s[j2]);
    }
}

/// Finds `name` among the keys of `entries`.
fn find_key<V>(entries: &Vec<(String, V)>, name: &String) -> (r: Option<usize>)
    ensures
        match r {
            Some(j) => j < entries@.len() && key_names(entries@)[j as int] == name@
                && key_names(entries@).contains(name@),
            None => !key_names(entries@).contains(name@),
        },
{
    let mut j: usize = 0;
    while j < entries.len()
        invariant
            j <= entries@.len(),
            forall|k: int| 0 <= k < j ==> key_names(entries@)[k] != name@,
        decreases entries@.len() - j,
    {
        if entries[j].0 == *name {
            assert(key_names(entries@)[j as int] == name@);
            return Some(j);
        }
        j += 1;
    }
    None
}

/// Where `name`, absent from the sorted keys of `entries`, goes to keep them sorted.
fn insert_position<V>(entries: &Vec<(String, V)>, name: &String) -> (k: usize)
    requires
        strictly_sorted(key_names(entries@)),
        !key_names(entries@).contains(name@),
    ensures
        k == sorted_pos(key_names(entries@), name@),
        k <= entries@.len(),
        strictly_sorted(key_names(entries@).insert(k as int, name@)),
{
    let ghost s = key_names(entries@);
    let nv = chars_of(name.as_str());
    let mut k: usize = 0;
    while k < entries.len()
        invariant
            s == key_names(entries@),
            nv@ == name@,
            k <= entries@.len(),
            forall|i: int| 0 <= i < k ==> !lex_lt(name@, #[trigger] s[i]),
        ensures
            k <= entries@.len(),
            forall|i: int| 0 <= i < k ==> !lex_lt(name@, #[trigger] s[i]),
            k == entries@.len() || lex_lt(name@, s[k as int]),
        decreases entries@.len() - k,
    {
        let kv = chars_of(entries[k].0.as_str());
        if less_than(&nv, &kv) {
            assert(s[k as int] == kv@);
            break;
        }
        k += 1;
    }
    proof {
        lemma_sorted_pos(s, name@, k as int);
        lemma_insert_sorted_keeps_order(s, name@, k as int);
    }
    k
}


// ---------------------------------------------------------------------------
// Directory trees and their model
// ---------------------------------------------------------------------------

/// A regular file.
pub struct FileMeta {
    pub content: Vec<u8>,
    pub size: usize,
    pub created_tick: u64,
}

/// What a file holds.
#[verifier::ext_equal]
pub struct FileView {
    pub content: Seq<u8>,
    pub size: usize,
    pub created_tick: u64,
}

impl View for FileMeta {
    type V = FileView;

    open spec fn view(&self) -> FileView {
        FileView { content: self.content@, size: self.size, created_tick: self.created_tick }
    }
}

/// What one directory holds itself: its files by name, and the names of its
/// subdirectories, both in name order.
pub struct DirView {
    pub files: Seq<(Seq<char>, FileView)>,
    pub subdirs: Seq<Seq<char>>,
}

impl DirView {
    pub open spec fn file_names(self) -> Seq<Seq<char>> {
        entry_names(self.files)
    }

    /// Names are in strict order, so unique, and each file's size is its length.
    pub open spec fn wf(self) -> bool {
        &&& strictly_sorted(self.file_names())
        &&& strictly_sorted(self.subdirs)
        &&& forall|i: int|
            0 <= i < self.files.len() ==> (#[trigger] self.files[i]).1.size == self.files[i].1.content.len()
    }
}

/// A directory with nothing in it.
pub open spec fn empty_dir_view() -> DirView {
    DirView { files: seq![], subdirs: seq![] }
}

/// The file that a new, empty file holds.
pub open spec fn new_file_view() -> FileView {
    FileView { content: seq![], size: 0, created_tick: 0 }
}

/// Every directory of the tree `t` is well formed.
pub open spec fn tree_wf(t: Map<Seq<Seq<char>>, DirView>) -> bool {
    forall|p: Seq<Seq<char>>| #[trigger] t.contains_key(p) ==> t[p].wf()
}

/// `p` is an initial part of `q`.
pub open spec fn is_prefix(p: Seq<Seq<char>>, q: Seq<Seq<char>>) -> bool {
    p.len() <= q.len() && q.take(p.len() as int) == p
}

/// The part of the tree `t` at and below `p`, with paths taken from `p`.
pub open spec fn subtree(t: Map<Seq<Seq<char>>, DirView>, p: Seq<Seq<char>>) -> Map<Seq<Seq<char>>, DirView> {
    Map::new(|q: Seq<Seq<char>>| t.contains_key(p + q), |q: Seq<Seq<char>>| t[p + q])
}

/// The tree `t` with what lies at and below `p` replaced by the tree `s`.
pub open spec fn graft(
    t: Map<Seq<Seq<char>>, DirView>,
    p: Seq<Seq<char>>,
    s: Map<Seq<Seq<char>>, DirView>,
) -> Map<Seq<Seq<char>>, DirView> {
    Map::new(
        |q: Seq<Seq<char>>|
            if is_prefix(p, q) {
                s.contains_key(q.skip(p.len() as int))
            } else {
                t.contains_key(q)
            },
        |q: Seq<Seq<char>>|
            if is_prefix(p, q) {
                s[q.skip(p.len() as int)]
            } else {
                t[q]
            },
    )
}

/// A directory: its files and its subdirectories, each kept in name order.
pub struct DirEntry {
    pub files: Vec<(String, FileMeta)>,
    pub subdirs: Vec<(String, DirEntry)>,
}

impl DirEntry {
    pub open spec fn subdir_names(self) -> Seq<Seq<char>> {
        key_names(self.subdirs@)
    }

    /// The subdirectory named `n`.
    pub open spec fn child(self, n: Seq<char>) -> DirEntry {
        self.subdirs@[self.subdir_names().index_of(n)].1
    }

    /// The directory reached from this one along the names `p`.
    pub open spec fn lookup(self, p: Seq<Seq<char>>) -> Option<DirEntry>
        decreases p.len(),
    {
        if p.len() == 0 {
            Some(self)
        } else if self.subdir_names().contains(p[0]) {
            self.child(p[0]).lookup(p.drop_first())
        } else {
            None
        }
    }

    /// What this directory holds itself.
    pub open spec fn local(self) -> DirView {
        DirView {
            files: self.files@.map_values(|e: (String, FileMeta)| (e.0@, e.1@)),
            subdirs: self.subdir_names(),
        }
    }

    /// Every directory below this one, itself included, by path.
    pub open spec fn tree(self) -> Map<Seq<Seq<char>>, DirView> {
        Map::new(
            |p: Seq<Seq<char>>| self.lookup(p) is Some,
            |p: Seq<Seq<char>>| self.lookup(p).unwrap().local(),
        )
    }

    pub open spec fn wf(self) -> bool {
        tree_wf(self.tree())
    }

    pub fn new() -> (d: Self)
        ensures
            d.files@.len() == 0,
            d.subdirs@.len() == 0,
            d.wf(),
            d.tree() == Map::<Seq<Seq<char>>, DirView>::empty().insert(seq![], empty_dir_view()),
    {
        let d = DirEntry { files: Vec::new(), subdirs: Vec::new() };
        proof {
            lemma_tree_of_empty(d);
        }
        d
    }
}

proof fn lemma_tree_of_empty(d: DirEntry)
    requires
        d.files@.len() == 0,
        d.subdirs@.len() == 0,
    ensures
        d.wf(),
        d.tree() == Map::<Seq<Seq<char>>, DirView>::empty().insert(seq![], empty_dir_view()),
{
    let e = Map::<Seq<Seq<char>>, DirView>::empty().insert(seq![], empty_dir_view());
    assert(d.local().files =~= empty_dir_view().files);
    assert(d.local().subdirs =~= empty_dir_view().subdirs);
    assert(d.local() =~= empty_dir_view());
    assert forall|p: Seq<Seq<char>>| #[trigger] d.tree().contains_key(p) <==> e.contains_key(p) by {
        if p.len() > 0 {
            assert(!d.subdir_names().contains(p[0]));
        } else {
            assert(p =~= seq![]);
        }
    }
    assert(d.tree() =~= e);
}

proof fn lemma_local_names(d: DirEntry)
    ensures
        d.local().file_names() == key_names(d.files@),
        d.local().files.len() == d.files@.len(),
{
    assert(d.local().file_names() =~= key_names(d.files@));
}

/// The root of a well-formed tree has unique subdirectory names.
proof fn lemma_root_wf(d: DirEntry)
    requires
        d.wf(),
    ensures
        d.local().wf(),
        d.tree().contains_key(seq![]),
        d.tree()[seq![]] == d.local(),
        d.subdir_names().no_duplicates(),
        key_names(d.files@).no_duplicates(),
{
    assert(d.lookup(seq![]) == Some(d));
    assert(d.tree().contains_key(seq![]));
    lemma_sorted_no_duplicates(d.subdir_names());
    lemma_local_names(d);
    lemma_sorted_no_duplicates(key_names(d.files@));
}

/// A subdirectory's tree is the part of its parent's tree below its name.
proof fn lemma_tree_child(d: DirEntry, n: Seq<char>)
    requires
        d.subdir_names().contains(n),
    ensures
        d.child(n).tree() == subtree(d.tree(), seq![n]),
{
    let c = d.child(n);
    assert forall|q: Seq<Seq<char>>| #[trigger] c.tree().contains_key(q) <==> subtree(d.tree(), seq![n]).contains_key(q) by {
        let pq = seq![n] + q;
        assert(pq[0] == n);
        assert(pq.drop_first() =~= q);
    }
    assert forall|q: Seq<Seq<char>>| #[trigger] c.tree().contains_key(q) implies c.tree()[q] == subtree(d.tree(), seq![n])[q] by {
        let pq = seq![n] + q;
        assert(pq[0] == n);
        assert(pq.drop_first() =~= q);
    }
    assert(c.tree() =~= subtree(d.tree(), seq![n]));
}

/// Replacing one subdirectory replaces its part of the tree.
proof fn lemma_tree_replace_child(d: DirEntry, d2: DirEntry, j: int, c2: DirEntry)
    requires
        d.subdir_names().no_duplicates(),
        0 <= j < d.subdirs@.len(),
        d2.files == d.files,
        d2.subdirs@ == d.subdirs@.update(j, (d.subdirs@[j].0, c2)),
    ensures
        d2.tree() == graft(d.tree(), seq![d.subdirs@[j].0@], c2.tree()),
{
    let n = d.subdirs@[j].0@;
    let g = graft(d.tree(), seq![n], c2.tree());
    assert(d2.subdir_names() =~= d.subdir_names());
    lemma_index_of_unique(d.subdir_names(), j);
    assert(d2.local() =~= d.local());
    assert forall|q: Seq<Seq<char>>| #[trigger] d2.tree().contains_key(q) <==> g.contains_key(q) by {
        if q.len() == 0 {
            assert(!is_prefix(seq![n], q));
        } else if q[0] == n {
            assert(is_prefix(seq![n], q)) by {
                assert(q.take(1) =~= seq![n]);
            }
            assert(q.skip(1) =~= q.drop_first());
        } else {
            assert(!is_prefix(seq![n], q)) by {
                if is_prefix(seq![n], q) {
                    assert(q.take(1)[0] == q[0]);
                }
            }
            if d.subdir_names().contains(q[0]) {
                let i = d.subdir_names().index_of(q[0]);
                assert(i != j);
            }
        }
    }
    assert forall|q: Seq<Seq<char>>| #[trigger] d2.tree().contains_key(q) implies d2.tree()[q] == g[q] by {
        if q.len() == 0 {
            assert(!is_prefix(seq![n], q));
        } else if q[0] == n {
            assert(is_prefix(seq![n], q)) by {
                assert(q.take(1) =~= seq![n]);
            }
            assert(q.skip(1) =~= q.drop_first());
        } else {
            assert(!is_prefix(seq![n], q)) by {
                if is_prefix(seq![n], q) {
                    assert(q.take(1)[0] == q[0]);
                }
            }
            let i = d.subdir_names().index_of(q[0]);
            assert(i != j);
        }
    }
    assert(d2.tree() =~= g);
}


// ---------------------------------------------------------------------------
// Algebra of subtrees and grafts
// ---------------------------------------------------------------------------

proof fn lemma_prefix_split(p: Seq<Seq<char>>, q: Seq<Seq<char>>)
    ensures
        is_prefix(p, q) ==> q == p + q.skip(p.len() as int),
        is_prefix(p, p + q),
        (p + q).skip(p.len() as int) == q,
{
    if is_prefix(p, q) {
        assert(q =~= q.take(p.len() as int) + q.skip(p.len() as int));
    }
    assert((p + q).take(p.len() as int) =~= p);
    assert((p + q).skip(p.len() as int) =~= q);
}

proof fn lemma_prefix_concat(a: Seq<Seq<char>>, b: Seq<Seq<char>>, q: Seq<Seq<char>>)
    ensures
        is_prefix(a + b, q) <==> (is_prefix(a, q) && is_prefix(b, q.skip(a.len() as int))),
        is_prefix(a + b, q) ==> q.skip((a + b).len() as int) == q.skip(a.len() as int).skip(
            b.len() as int,
        ),
{
    lemma_prefix_split(a, q);
    lemma_prefix_split(a + b, q);
    if is_prefix(a + b, q) {
        assert(q.take(a.len() as int) =~= (a + b).take(a.len() as int));
        assert((a + b).take(a.len() as int) =~= a);
        assert(q.skip(a.len() as int).take(b.len() as int) =~= q.take((a + b).len() as int).skip(
            a.len() as int,
        ));
        assert((a + b).skip(a.len() as int) =~= b);
        assert(q.skip((a + b).len() as int) =~= q.skip(a.len() as int).skip(b.len() as int));
    }
    if is_prefix(a, q) && is_prefix(b, q.skip(a.len() as int)) {
        let r = q.skip(a.len() as int);
        assert(q.take((a + b).len() as int) =~= q.take(a.len() as int) + r.take(b.len() as int));
    }
}

proof fn lemma_subtree_empty(t: Map<Seq<Seq<char>>, DirView>)
    ensures
        subtree(t, seq![]) == t,
{
    assert forall|q: Seq<Seq<char>>| #[trigger] subtree(t, seq![]).contains_key(q) <==> t.contains_key(q) by {
        assert(Seq::<Seq<char>>::empty() + q =~= q);
    }
    assert forall|q: Seq<Seq<char>>| #[trigger] subtree(t, seq![]).contains_key(q) implies subtree(t, seq![])[q] == t[q] by {
        assert(Seq::<Seq<char>>::empty() + q =~= q);
    }
    assert(subtree(t, seq![]) =~= t);
}

proof fn lemma_graft_subtree(t: Map<Seq<Seq<char>>, DirView>, p: Seq<Seq<char>>)
    ensures
        graft(t, p, subtree(t, p)) == t,
{
    let g = graft(t, p, subtree(t, p));
    assert forall|q: Seq<Seq<char>>| #[trigger] g.contains_key(q) <==> t.contains_key(q) by {
        lemma_prefix_split(p, q);
    }
    assert forall|q: Seq<Seq<char>>| #[trigger] g.contains_key(q) implies g[q] == t[q] by {
        lemma_prefix_split(p, q);
    }
    assert(g =~= t);
}

proof fn lemma_subtree_subtree(t: Map<Seq<Seq<char>>, DirView>, a: Seq<Seq<char>>, b: Seq<Seq<char>>)
    ensures
        subtree(subtree(t, a), b) == subtree(t, a + b),
{
    assert forall|q: Seq<Seq<char>>| #[trigger] subtree(subtree(t, a), b).contains_key(q) <==> subtree(t, a + b).contains_key(q) by {
        assert(a + (b + q) =~= (a + b) + q);
    }
    assert forall|q: Seq<Seq<char>>| #[trigger] subtree(subtree(t, a), b).contains_key(q) implies subtree(subtree(t, a), b)[q] == subtree(t, a + b)[q] by {
        assert(a + (b + q) =~= (a + b) + q);
    }
    assert(subtree(subtree(t, a), b) =~= subtree(t, a + b));
}

proof fn lemma_graft_graft(
    t: Map<Seq<Seq<char>>, DirView>,
    a: Seq<Seq<char>>,
    b: Seq<Seq<char>>,
    s: Map<Seq<Seq<char>>, DirView>,
)
    ensures
        graft(t, a, graft(subtree(t, a), b, s)) == graft(t, a + b, s),
{
    let l = graft(t, a, graft(subtree(t, a), b, s));
    let r = graft(t, a + b, s);
    assert forall|q: Seq<Seq<char>>| #[trigger] l.contains_key(q) <==> r.contains_key(q) by {
        lemma_prefix_concat(a, b, q);
        lemma_prefix_split(a, q);
    }
    assert forall|q: Seq<Seq<char>>| #[trigger] l.contains_key(q) implies l[q] == r[q] by {
        lemma_prefix_concat(a, b, q);
        lemma_prefix_split(a, q);
    }
    assert(l =~= r);
}

proof fn lemma_graft_insert(
    t: Map<Seq<Seq<char>>, DirView>,
    p: Seq<Seq<char>>,
    s: Map<Seq<Seq<char>>, DirView>,
    k: Seq<Seq<char>>,
    v: DirView,
)
    ensures
        graft(t, p, s.insert(k, v)) == graft(t, p, s).insert(p + k, v),
{
    let l = graft(t, p, s.insert(k, v));
    let r = graft(t, p, s).insert(p + k, v);
    lemma_prefix_split(p, k);
    assert forall|q: Seq<Seq<char>>| #[trigger] l.contains_key(q) <==> r.contains_key(q) by {
        lemma_prefix_split(p, q);
    }
    assert forall|q: Seq<Seq<char>>| #[trigger] l.contains_key(q) implies l[q] == r[q] by {
        lemma_prefix_split(p, q);
    }
    assert(l =~= r);
}

proof fn lemma_graft_remove(
    t: Map<Seq<Seq<char>>, DirView>,
    p: Seq<Seq<char>>,
    s: Map<Seq<Seq<char>>, DirView>,
    k: Seq<Seq<char>>,
)
    ensures
        graft(t, p, s.remove(k)) == graft(t, p, s).remove(p + k),
{
    let l = graft(t, p, s.remove(k));
    let r = graft(t, p, s).remove(p + k);
    lemma_prefix_split(p, k);
    assert forall|q: Seq<Seq<char>>| #[trigger] l.contains_key(q) <==> r.contains_key(q) by {
        lemma_prefix_split(p, q);
    }
    assert forall|q: Seq<Seq<char>>| #[trigger] l.contains_key(q) implies l[q] == r[q] by {
        lemma_prefix_split(p, q);
    }
    assert(l =~= r);
}

proof fn lemma_graft_wf(t: Map<Seq<Seq<char>>, DirView>, p: Seq<Seq<char>>, s: Map<Seq<Seq<char>>, DirView>)
    requires
        tree_wf(t),
        tree_wf(s),
    ensures
        tree_wf(graft(t, p, s)),
{
    let g = graft(t, p, s);
    assert forall|q: Seq<Seq<char>>| #[trigger] g.contains_key(q) implies g[q].wf() by {
        if is_prefix(p, q) {
            assert(s.contains_key(q.skip(p.len() as int)));
        } else {
            assert(t.contains_key(q));
        }
    }
}

proof fn lemma_subtree_wf(t: Map<Seq<Seq<char>>, DirView>, p: Seq<Seq<char>>)
    requires
        tree_wf(t),
    ensures
        tree_wf(subtree(t, p)),
{
    assert forall|q: Seq<Seq<char>>| #[trigger] subtree(t, p).contains_key(q) implies subtree(t, p)[q].wf() by {
        assert(t.contains_key(p + q));
    }
}

proof fn lemma_insert_wf(t: Map<Seq<Seq<char>>, DirView>, k: Seq<Seq<char>>, v: DirView)
    requires
        tree_wf(t),
        v.wf(),
    ensures
        tree_wf(t.insert(k, v)),
{
    assert forall|q: Seq<Seq<char>>| #[trigger] t.insert(k, v).contains_key(q) implies t.insert(k, v)[q].wf() by {
        if q != k {
            assert(t.contains_key(q));
        }
    }
}

proof fn lemma_remove_wf(t: Map<Seq<Seq<char>>, DirView>, k: Seq<Seq<char>>)
    requires
        tree_wf(t),
    ensures
        tree_wf(t.remove(k)),
{
    assert forall|q: Seq<Seq<char>>| #[trigger] t.remove(k).contains_key(q) implies t.remove(k)[q].wf() by {
        assert(t.contains_key(q));
    }
}


proof fn lemma_graft_root(t: Map<Seq<Seq<char>>, DirView>, s: Map<Seq<Seq<char>>, DirView>)
    ensures
        graft(t, seq![], s) == s,
{
    let g = graft(t, seq![], s);
    assert forall|q: Seq<Seq<char>>| #[trigger] g.contains_key(q) <==> s.contains_key(q) by {
        assert(q.take(0) =~= Seq::<Seq<char>>::empty());
        assert(q.skip(0) =~= q);
    }
    assert forall|q: Seq<Seq<char>>| #[trigger] g.contains_key(q) implies g[q] == s[q] by {
        assert(q.take(0) =~= Seq::<Seq<char>>::empty());
        assert(q.skip(0) =~= q);
    }
    assert(g =~= s);
}

// ---------------------------------------------------------------------------
// Changes to one directory and what they do to its tree
// ---------------------------------------------------------------------------

/// Changing only the files of a directory changes only its own entry.
proof fn lemma_tree_same_subdirs(d: DirEntry, d2: DirEntry)
    requires
        d2.subdirs == d.subdirs,
    ensures
        d2.tree() == d.tree().insert(seq![], d2.local()),
{
    let e = d.tree().insert(seq![], d2.local());
    assert forall|q: Seq<Seq<char>>| #[trigger] d2.tree().contains_key(q) <==> e.contains_key(q) by {
        if q.len() == 0 {
            assert(q =~= seq![]);
        }
    }
    assert forall|q: Seq<Seq<char>>| #[trigger] d2.tree().contains_key(q) implies d2.tree()[q] == e[q] by {
        if q.len() == 0 {
            assert(q =~= seq![]);
        }
    }
    assert(d2.tree() =~= e);
}

/// Adding an empty subdirectory adds its entry.
proof fn lemma_tree_insert_subdir(d: DirEntry, d2: DirEntry, k: int, name: String, c: DirEntry)
    requires
        d.subdir_names().no_duplicates(),
        !d.subdir_names().contains(name@),
        0 <= k <= d.subdirs@.len(),
        d2.files == d.files,
        d2.subdirs@ == d.subdirs@.insert(k, (name, c)),
        c.files@.len() == 0,
        c.subdirs@.len() == 0,
    ensures
        d2.subdir_names() == d.subdir_names().insert(k, name@),
        d2.tree() == d.tree().insert(seq![], d2.local()).insert(seq![name@], empty_dir_view()),
{
    let n = name@;
    let names = d.subdir_names();
    let names2 = d2.subdir_names();
    assert(names2 =~= names.insert(k, n));
    assert(names2.no_duplicates()) by {
        assert forall|a: int, b: int| 0 <= a < names2.len() && 0 <= b < names2.len() && a != b implies names2[a] != names2[b] by {
            if a == k || b == k {
                if a != k {
                    let a2 = if a < k { a } else { a - 1 };
                    assert(names2[a] == names[a2]);
                }
                if b != k {
                    let b2 = if b < k { b } else { b - 1 };
                    assert(names2[b] == names[b2]);
                }
            } else {
                let a2 = if a < k { a } else { a - 1 };
                let b2 = if b < k { b } else { b - 1 };
                assert(names2[a] == names[a2] && names2[b] == names[b2]);
            }
        }
    }
    lemma_tree_of_empty(c);
    let e = d.tree().insert(seq![], d2.local()).insert(seq![n], empty_dir_view());
    assert forall|q: Seq<Seq<char>>| #[trigger] d2.tree().contains_key(q) <==> e.contains_key(q) by {
        if q.len() == 0 {
            assert(q =~= seq![]);
        } else if q[0] == n {
            lemma_index_of_unique(names2, k);
            assert(d2.child(n) == c);
            if q.len() == 1 {
                assert(q =~= seq![n]);
                assert(c.tree().contains_key(q.drop_first()));
            } else {
                assert(q != seq![n]);
                assert(!c.tree().contains_key(q.drop_first()));
            }
        } else {
            assert(q != seq![n]);
            if names.contains(q[0]) {
                let i = names.index_of(q[0]);
                let i2 = if i < k { i } else { i + 1 };
                assert(names2[i2] == q[0]);
                lemma_index_of_unique(names2, i2);
                assert(d2.child(q[0]) == d.child(q[0]));
            } else {
                assert(!names2.contains(q[0]));
            }
        }
    }
    assert forall|q: Seq<Seq<char>>| #[trigger] d2.tree().contains_key(q) implies d2.tree()[q] == e[q] by {
        if q.len() == 0 {
            assert(q =~= seq![]);
        } else if q[0] == n {
            lemma_index_of_unique(names2, k);
            assert(d2.child(n) == c);
            if q.len() == 1 {
                assert(q =~= seq![n]);
                assert(c.tree().contains_key(q.drop_first()));
            } else {
                assert(!c.tree().contains_key(q.drop_first()));
            }
        } else {
            assert(q != seq![n]);
            let i = names.index_of(q[0]);
            let i2 = if i < k { i } else { i + 1 };
            assert(names2[i2] == q[0]);
            lemma_index_of_unique(names2, i2);
            assert(d2.child(q[0]) == d.child(q[0]));
        }
    }
    assert(d2.tree() =~= e);
}

/// Removing a subdirectory that has no subdirectories removes its entry.
proof fn lemma_tree_remove_subdir(d: DirEntry, d2: DirEntry, j: int)
    requires
        d.subdir_names().no_duplicates(),
        0 <= j < d.subdirs@.len(),
        d2.files == d.files,
        d2.subdirs@ == d.subdirs@.remove(j),
        d.subdirs@[j].1.subdirs@.len() == 0,
    ensures
        d2.subdir_names() == d.subdir_names().remove(j),
        d2.tree() == d.tree().remove(seq![d.subdirs@[j].0@]).insert(seq![], d2.local()),
{
    let n = d.subdirs@[j].0@;
    let c = d.subdirs@[j].1;
    let names = d.subdir_names();
    let names2 = d2.subdir_names();
    assert(names2 =~= names.remove(j));
    lemma_index_of_unique(names, j);
    let e = d.tree().remove(seq![n]).insert(seq![], d2.local());
    assert forall|q: Seq<Seq<char>>| #[trigger] d2.tree().contains_key(q) <==> e.contains_key(q) by {
        if q.len() == 0 {
            assert(q =~= seq![]);
        } else if q[0] == n {
            assert(!names2.contains(n)) by {
                if names2.contains(n) {
                    let a = names2.index_of(n);
                    let a2 = if a < j { a } else { a + 1 };
                    assert(names[a2] == n);
                }
            }
            assert(!d2.tree().contains_key(q));
            if q.len() > 1 {
                assert(d.child(n) == c);
                assert(c.subdir_names().len() == 0);
                assert(!c.subdir_names().contains(q.drop_first()[0]));
                assert(c.lookup(q.drop_first()) is None);
                assert(!d.tree().contains_key(q));
                assert(!e.contains_key(q));
            } else {
                assert(q =~= seq![n]);
                assert(!e.contains_key(q));
            }
        } else {
            assert(q != seq![n]);
            if names2.contains(q[0]) {
                let a = names2.index_of(q[0]);
                let a2 = if a < j { a } else { a + 1 };
                assert(names[a2] == q[0]);
                lemma_index_of_unique(names, a2);
                lemma_index_of_unique(names2, a);
                assert(d2.subdirs@[a] == d.subdirs@[a2]);
                assert(d2.child(q[0]) == d.child(q[0]));
                assert(d2.lookup(q) == d.lookup(q));
            } else if names.contains(q[0]) {
                let i = names.index_of(q[0]);
                assert(i != j);
                let i2 = if i < j { i } else { i - 1 };
                assert(names2[i2] == q[0]);
                assert(false);
            } else {
                assert(d2.lookup(q) is None);
                assert(d.lookup(q) is None);
            }
        }
    }
    assert forall|q: Seq<Seq<char>>| #[trigger] d2.tree().contains_key(q) implies d2.tree()[q] == e[q] by {
        if q.len() == 0 {
            assert(q =~= seq![]);
        } else {
            let a = names2.index_of(q[0]);
            let a2 = if a < j { a } else { a + 1 };
            assert(names[a2] == q[0]);
            lemma_index_of_unique(names, a2);
            lemma_index_of_unique(names2, a);
            assert(d2.child(q[0]) == d.child(q[0]));
            assert(q != seq![n]);
        }
    }
    assert(d2.tree() =~= e);
}


// ---------------------------------------------------------------------------
// Changes made in one directory, found along a path
// ---------------------------------------------------------------------------

/// A change to one directory.
enum DirOp<'a> {
    MakeDir(String),
    CreateFile(String),
    Append(String, &'a [u8]),
    DeleteFile(String),
    RemoveDir(String),
}

/// The file `f` with `data` added at its end.
pub open spec fn appended(f: FileView, data: Seq<u8>) -> FileView {
    FileView {
        content: f.content + data,
        size: (f.content.len() + data.len()) as usize,
        created_tick: f.created_tick,
    }
}

/// The directory `v` with the subdirectory `n` added.
pub open spec fn with_subdir(v: DirView, n: Seq<char>) -> DirView {
    DirView { files: v.files, subdirs: insert_sorted(v.subdirs, n) }
}

/// The directory `v` without its subdirectory `n`.
pub open spec fn without_subdir(v: DirView, n: Seq<char>) -> DirView {
    DirView { files: v.files, subdirs: v.subdirs.remove(v.subdirs.index_of(n)) }
}

/// The directory `v` with an empty file `n` added.
pub open spec fn with_new_file(v: DirView, n: Seq<char>) -> DirView {
    DirView { files: insert_entry(v.files, n, new_file_view()), subdirs: v.subdirs }
}

/// The directory `v` with `data` added at the end of its file `n`.
pub open spec fn with_appended(v: DirView, n: Seq<char>, data: Seq<u8>) -> DirView {
    let i = v.file_names().index_of(n);
    DirView { files: v.files.update(i, (n, appended(v.files[i].1, data))), subdirs: v.subdirs }
}

/// The directory `v` without its file `n`.
pub open spec fn without_file(v: DirView, n: Seq<char>) -> DirView {
    DirView { files: v.files.remove(v.file_names().index_of(n)), subdirs: v.subdirs }
}

/// A directory holds neither files nor subdirectories.
pub open spec fn is_empty_dir(v: DirView) -> bool {
    v.files.len() == 0 && v.subdirs.len() == 0
}

/// What a change does to the tree `s` whose root is the directory changed.
spec fn op_effect(s: Map<Seq<Seq<char>>, DirView>, op: DirOp) -> (
    Map<Seq<Seq<char>>, DirView>,
    Result<(), &'static str>,
) {
    let v = s[seq![]];
    match op {
        DirOp::MakeDir(n) => if v.subdirs.contains(n@) {
            (s, Err(DIR_EXISTS))
        } else {
            (s.insert(seq![], with_subdir(v, n@)).insert(seq![n@], empty_dir_view()), Ok(()))
        },
        DirOp::CreateFile(n) => if v.file_names().contains(n@) {
            (s, Ok(()))
        } else {
            (s.insert(seq![], with_new_file(v, n@)), Ok(()))
        },
        DirOp::Append(n, data) => if v.file_names().contains(n@) {
            (s.insert(seq![], with_appended(v, n@, data@)), Ok(()))
        } else {
            (s, Err(FILE_NOT_FOUND))
        },
        DirOp::DeleteFile(n) => if v.file_names().contains(n@) {
            (s.insert(seq![], without_file(v, n@)), Ok(()))
        } else {
            (s, Err(FILE_NOT_FOUND))
        },
        DirOp::RemoveDir(n) => if !v.subdirs.contains(n@) {
            (s, Err(DIR_NOT_FOUND))
        } else if !is_empty_dir(s[seq![n@]]) {
            (s, Err(DIR_NOT_EMPTY))
        } else {
            (s.remove(seq![n@]).insert(seq![], without_subdir(v, n@)), Ok(()))
        },
    }
}

/// The views of a sequence of strings.
pub open spec fn string_views(v: Seq<String>) -> Seq<Seq<char>> {
    v.map_values(|s: String| s@)
}

impl DirEntry {
    /// Makes the change `op` in this directory itself.
    fn apply_local(&mut self, op: &DirOp) -> (r: Result<(), &'static str>)
        requires
            old(self).wf(),
        ensures
            final(self).wf(),
            (final(self).tree(), r) == op_effect(old(self).tree(), *op),
    {
        let ghost d0 = *self;
        proof {
            lemma_root_wf(d0);
            lemma_local_names(d0);
        }
        match op {
            DirOp::MakeDir(name) => {
                match find_key(&self.subdirs, name) {
                    Some(_) => Err(DIR_EXISTS),
                    None => {
                        let k = insert_position(&self.subdirs, name);
                        let c = DirEntry::new();
                        self.subdirs.insert(k, (name.clone(), c));
                        proof {
                            lemma_tree_insert_subdir(d0, *self, k as int, *name, c);
                            let v = d0.local();
                            assert(self.local() =~= with_subdir(v, name@));
                            lemma_insert_wf(d0.tree(), seq![], self.local());
                            lemma_insert_wf(d0.tree().insert(seq![], self.local()), seq![name@], empty_dir_view());
                        }
                        Ok(())
                    },
                }
            },
            DirOp::CreateFile(name) => {
                match find_key(&self.files, name) {
                    Some(_) => {
                        proof {
                            assert(d0.tree().insert(seq![], d0.local()) =~= d0.tree());
                        }
                        Ok(())
                    },
                    None => {
                        let k = insert_position(&self.files, name);
                        let f = FileMeta { content: Vec::new(), size: 0, created_tick: 0 };
                        self.files.insert(k, (name.clone(), f));
                        proof {
                            lemma_tree_same_subdirs(d0, *self);
                            let v = d0.local();
                            assert(self.local().files =~= insert_entry(v.files, name@, new_file_view()));
                            assert(self.local() =~= with_new_file(v, name@));
                            lemma_local_names(*self);
                            assert(key_names(self.files@) =~= key_names(d0.files@).insert(k as int, name@));
                            lemma_insert_wf(d0.tree(), seq![], self.local());
                        }
                        Ok(())
                    },
                }
            },
            DirOp::Append(name, data) => {
                match find_key(&self.files, name) {
                    None => Err(FILE_NOT_FOUND),
                    Some(j) => {
                        self.files[j].1.content.extend_from_slice(data);
                        let len = self.files[j].1.content.len();
                        self.files[j].1.size = len;
                        proof {
                            lemma_index_of_unique(key_names(d0.files@), j as int);
                            let v = d0.local();
                            let f0 = d0.files@[j as int].1;
                            assert(self.files@[j as int].1.content@ =~= f0.content@ + data@);
                            assert(self.files@[j as int].1@ =~= appended(f0@, data@));
                            assert(self.local().files =~= v.files.update(j as int, (name@, appended(v.files[j as int].1, data@))));
                            assert(self.local() =~= with_appended(v, name@, data@));
                            lemma_tree_same_subdirs(d0, *self);
                            lemma_local_names(*self);
                            assert(key_names(self.files@) =~= key_names(d0.files@));
                            lemma_insert_wf(d0.tree(), seq![], self.local());
                        }
                        Ok(())
                    },
                }
            },
            DirOp::DeleteFile(name) => {
                match find_key(&self.files, name) {
                    None => Err(FILE_NOT_FOUND),
                    Some(j) => {
                        self.files.remove(j);
                        proof {
                            lemma_index_of_unique(key_names(d0.files@), j as int);
                            let v = d0.local();
                            assert(self.local().files =~= v.files.remove(j as int));
                            assert(self.local() =~= without_file(v, name@));
                            lemma_tree_same_subdirs(d0, *self);
                            lemma_local_names(*self);
                            assert(key_names(self.files@) =~= key_names(d0.files@).remove(j as int));
                            lemma_remove_keeps_order(key_names(d0.files@), j as int);
                            lemma_insert_wf(d0.tree(), seq![], self.local());
                        }
                        Ok(())
                    },
                }
            },
            DirOp::RemoveDir(name) => {
                match find_key(&self.subdirs, name) {
                    None => Err(DIR_NOT_FOUND),
                    Some(j) => {
                        proof {
                            lemma_index_of_unique(d0.subdir_names(), j as int);
                            let c = d0.subdirs@[j as int].1;
                            assert(d0.child(name@) == c);
                            assert(d0.lookup(seq![name@]) == Some(c)) by {
                                assert(seq![name@].drop_first() =~= Seq::<Seq<char>>::empty());
                                assert(c.lookup(Seq::<Seq<char>>::empty()) == Some(c));
                                assert(d0.subdir_names().contains(name@));
                            }
                            assert(c.local().files.len() == c.files@.len());
                        }
                        if !self.subdirs[j].1.files.is_empty() || !self.subdirs[j].1.subdirs.is_empty() {
                            return Err(DIR_NOT_EMPTY);
                        }
                        self.subdirs.remove(j);
                        proof {
                            lemma_tree_remove_subdir(d0, *self, j as int);
                            let v = d0.local();
                            assert(self.local() =~= without_subdir(v, name@));
                            lemma_remove_keeps_order(d0.subdir_names(), j as int);
                            lemma_remove_wf(d0.tree(), seq![name@]);
                            lemma_insert_wf(d0.tree().remove(seq![name@]), seq![], self.local());
                        }
                        Ok(())
                    },
                }
            },
        }
    }

    /// Makes the change `op` in the directory reached along `comps[i..]`.
    fn update_at(&mut self, comps: &Vec<String>, i: usize, op: &DirOp) -> (r: Result<(), &'static str>)
        requires
            old(self).wf(),
            i <= comps@.len(),
        ensures
            final(self).wf(),
            ({
                let p = string_views(comps@).skip(i as int);
                let t = old(self).tree();
                if t.contains_key(p) {
                    &&& final(self).tree() == graft(t, p, op_effect(subtree(t, p), *op).0)
                    &&& r == op_effect(subtree(t, p), *op).1
                } else {
                    &&& final(self).tree() == t
                    &&& r == Err::<(), &'static str>(PARENT_NOT_FOUND)
                }
            }),
        decreases comps@.len() - i,
    {
        let ghost d0 = *self;
        let ghost t = d0.tree();
        let ghost p = string_views(comps@).skip(i as int);
        if i == comps.len() {
            let r = self.apply_local(op);
            proof {
                assert(p =~= seq![]);
                assert(d0.lookup(p) == Some(d0));
                lemma_subtree_empty(t);
                lemma_graft_root(t, op_effect(t, *op).0);
            }
            return r;
        }
        proof {
            lemma_root_wf(d0);
            assert(p[0] == comps@[i as int]@);
            assert(p.drop_first() =~= string_views(comps@).skip(i + 1));
        }
        match find_key(&self.subdirs, &comps[i]) {
            None => {
                proof {
                    assert(!t.contains_key(p));
                }
                Err(PARENT_NOT_FOUND)
            },
            Some(j) => {
                let ghost n = comps@[i as int]@;
                let ghost c = d0.subdirs@[j as int].1;
                proof {
                    lemma_index_of_unique(d0.subdir_names(), j as int);
                    assert(d0.child(n) == c);
                    lemma_tree_child(d0, n);
                    lemma_subtree_wf(t, seq![n]);
                }
                let r = self.subdirs[j].1.update_at(comps, i + 1, op);
                proof {
                    let c2 = self.subdirs@[j as int].1;
                    lemma_tree_replace_child(d0, *self, j as int, c2);
                    let p2 = p.drop_first();
                    assert(p =~= seq![n] + p2);
                    lemma_subtree_subtree(t, seq![n], p2);
                    assert(t.contains_key(p) == c.tree().contains_key(p2));
                    if c.tree().contains_key(p2) {
                        lemma_graft_graft(t, seq![n], p2, op_effect(subtree(t, p), *op).0);
                        lemma_subtree_wf(t, p);
                    } else {
                        lemma_graft_subtree(t, seq![n]);
                    }
                    lemma_graft_wf(t, seq![n], c2.tree());
                }
                r
            },
        }
    }

    /// The directory reached along `comps[i..]`.
    fn lookup_ref(&self, comps: &Vec<String>, i: usize) -> (r: Option<&DirEntry>)
        requires
            self.wf(),
            i <= comps@.len(),
        ensures
            match r {
                Some(d) => self.lookup(string_views(comps@).skip(i as int)) == Some(*d),
                None => self.lookup(string_views(comps@).skip(i as int)) is None,
            },
        decreases comps@.len() - i,
    {
        let ghost p = string_views(comps@).skip(i as int);
        if i == comps.len() {
            assert(p =~= seq![]);
            return Some(self);
        }
        proof {
            lemma_root_wf(*self);
            assert(p[0] == comps@[i as int]@);
            assert(p.drop_first() =~= string_views(comps@).skip(i + 1));
        }
        match find_key(&self.subdirs, &comps[i]) {
            None => None,
            Some(j) => {
                proof {
                    lemma_index_of_unique(self.subdir_names(), j as int);
                    lemma_tree_child(*self, comps@[i as int]@);
                    lemma_subtree_wf(self.tree(), seq![comps@[i as int]@]);
                }
                self.subdirs[j].1.lookup_ref(comps, i + 1)
            },
        }
    }
}


// ---------------------------------------------------------------------------
// Paths
// ---------------------------------------------------------------------------

/// `path` taken from the working directory `cwd`: itself when it begins with
/// `/`, otherwise after `cwd` and a `/` (none is added when `cwd` ends in one).
pub open spec fn resolve(cwd: Seq<char>, path: Seq<char>) -> Seq<char> {
    if path.len() > 0 && path[0] == '/' {
        path
    } else if cwd.len() > 0 && cwd.last() == '/' {
        cwd + path
    } else {
        cwd.push('/') + path
    }
}

/// Index of the last `/` of `s`.
pub open spec fn last_slash(s: Seq<char>) -> Option<int>
    decreases s.len(),
{
    if s.len() == 0 {
        None
    } else if s.last() == '/' {
        Some(s.len() - 1)
    } else {
        last_slash(s.drop_last())
    }
}

/// The parent directory and the last name of `path` taken from `cwd`: split
/// at the last `/` of the resolved path, the parent being `/` when that is
/// the first character.
pub open spec fn split_parent(cwd: Seq<char>, path: Seq<char>) -> (Seq<char>, Seq<char>) {
    let r = resolve(cwd, path);
    match last_slash(r) {
        Some(pos) => (if pos == 0 { seq!['/'] } else { r.take(pos) }, r.skip(pos + 1)),
        None => (cwd, r),
    }
}

/// The names along a path: its non-empty parts between `/`.
pub open spec fn components(s: Seq<char>) -> Seq<Seq<char>> {
    tokens(s, Separator::Slash)
}

/// The directory that holds what `path` names, as a sequence of names.
pub open spec fn parent_dir(cwd: Seq<char>, path: Seq<char>) -> Seq<Seq<char>> {
    components(split_parent(cwd, path).0)
}

/// The last name of `path`.
pub open spec fn base_name(cwd: Seq<char>, path: Seq<char>) -> Seq<char> {
    split_parent(cwd, path).1
}

/// The directory that `path` names, as a sequence of names.
pub open spec fn dir_path(cwd: Seq<char>, path: Seq<char>) -> Seq<Seq<char>> {
    components(resolve(cwd, path))
}

proof fn lemma_last_slash_suffix(s: Seq<char>, k: int)
    requires
        0 <= k <= s.len(),
        forall|j: int| k <= j < s.len() ==> #[trigger] s[j] != '/',
    ensures
        last_slash(s) == last_slash(s.take(k)),
    decreases s.len() - k,
{
    if k < s.len() {
        assert(s.drop_last().take(k) =~= s.take(k));
        lemma_last_slash_suffix(s.drop_last(), k);
    } else {
        assert(s.take(k) =~= s);
    }
}

// ---------------------------------------------------------------------------
// The filesystem
// ---------------------------------------------------------------------------

/// A filesystem: every directory by path, and the working directory.
pub struct RamfsView {
    pub dirs: Map<Seq<Seq<char>>, DirView>,
    pub cwd: Seq<char>,
}

/// A hierarchical in-memory filesystem with a working directory.
pub struct Ramfs {
    pub root: DirEntry,
    pub cwd: String,
}

impl View for Ramfs {
    type V = RamfsView;

    open spec fn view(&self) -> RamfsView {
        RamfsView { dirs: self.root.tree(), cwd: self.cwd@ }
    }
}

/// What `mkdir(path)` does: add an empty directory under an existing parent.
pub open spec fn mkdir_spec(fs: RamfsView, path: Seq<char>) -> (RamfsView, Result<(), &'static str>) {
    let pc = parent_dir(fs.cwd, path);
    let n = base_name(fs.cwd, path);
    if n.len() == 0 {
        (fs, Err(INVALID_DIR_NAME))
    } else if !fs.dirs.contains_key(pc) {
        (fs, Err(PARENT_NOT_FOUND))
    } else if fs.dirs[pc].subdirs.contains(n) {
        (fs, Err(DIR_EXISTS))
    } else {
        (
            RamfsView {
                dirs: fs.dirs.insert(pc, with_subdir(fs.dirs[pc], n)).insert(pc.push(n), empty_dir_view()),
                cwd: fs.cwd,
            },
            Ok(()),
        )
    }
}

/// What `create_file(path)` does: add an empty file unless it is there already.
pub open spec fn create_file_spec(fs: RamfsView, path: Seq<char>) -> (RamfsView, Result<(), &'static str>) {
    let pc = parent_dir(fs.cwd, path);
    let n = base_name(fs.cwd, path);
    if n.len() == 0 {
        (fs, Err(INVALID_FILE_NAME))
    } else if !fs.dirs.contains_key(pc) {
        (fs, Err(PARENT_NOT_FOUND))
    } else if fs.dirs[pc].file_names().contains(n) {
        (fs, Ok(()))
    } else {
        (RamfsView { dirs: fs.dirs.insert(pc, with_new_file(fs.dirs[pc], n)), cwd: fs.cwd }, Ok(()))
    }
}

/// What `write_file(path, data)` does: add `data` at the end of an existing file.
pub open spec fn write_file_spec(fs: RamfsView, path: Seq<char>, data: Seq<u8>) -> (
    RamfsView,
    Result<(), &'static str>,
) {
    let pc = parent_dir(fs.cwd, path);
    let n = base_name(fs.cwd, path);
    if !fs.dirs.contains_key(pc) {
        (fs, Err(PARENT_NOT_FOUND))
    } else if !fs.dirs[pc].file_names().contains(n) {
        (fs, Err(FILE_NOT_FOUND))
    } else {
        (RamfsView { dirs: fs.dirs.insert(pc, with_appended(fs.dirs[pc], n, data)), cwd: fs.cwd }, Ok(()))
    }
}

/// The file that `path` names, or why there is none.
pub open spec fn file_at(fs: RamfsView, path: Seq<char>) -> Result<FileView, &'static str> {
    let pc = parent_dir(fs.cwd, path);
    let n = base_name(fs.cwd, path);
    if !fs.dirs.contains_key(pc) {
        Err(PARENT_NOT_FOUND)
    } else if !fs.dirs[pc].file_names().contains(n) {
        Err(FILE_NOT_FOUND)
    } else {
        Ok(fs.dirs[pc].files[fs.dirs[pc].file_names().index_of(n)].1)
    }
}

/// What `delete_file(path)` does: remove an existing file.
pub open spec fn delete_file_spec(fs: RamfsView, path: Seq<char>) -> (RamfsView, Result<(), &'static str>) {
    let pc = parent_dir(fs.cwd, path);
    let n = base_name(fs.cwd, path);
    if !fs.dirs.contains_key(pc) {
        (fs, Err(PARENT_NOT_FOUND))
    } else if !fs.dirs[pc].file_names().contains(n) {
        (fs, Err(FILE_NOT_FOUND))
    } else {
        (RamfsView { dirs: fs.dirs.insert(pc, without_file(fs.dirs[pc], n)), cwd: fs.cwd }, Ok(()))
    }
}

/// What `rmdir(path)` does: remove an existing, empty directory.
pub open spec fn rmdir_spec(fs: RamfsView, path: Seq<char>) -> (RamfsView, Result<(), &'static str>) {
    let pc = parent_dir(fs.cwd, path);
    let n = base_name(fs.cwd, path);
    if !fs.dirs.contains_key(pc) {
        (fs, Err(PARENT_NOT_FOUND))
    } else if !fs.dirs[pc].subdirs.contains(n) {
        (fs, Err(DIR_NOT_FOUND))
    } else if !is_empty_dir(fs.dirs[pc.push(n)]) {
        (fs, Err(DIR_NOT_EMPTY))
    } else {
        (
            RamfsView {
                dirs: fs.dirs.remove(pc.push(n)).insert(pc, without_subdir(fs.dirs[pc], n)),
                cwd: fs.cwd,
            },
            Ok(()),
        )
    }
}

/// What `list_dir(path)` gives: the names of the subdirectories and of the files.
pub open spec fn list_dir_spec(fs: RamfsView, path: Seq<char>) -> Result<
    (Seq<Seq<char>>, Seq<Seq<char>>),
    &'static str,
> {
    let p = dir_path(fs.cwd, path);
    if fs.dirs.contains_key(p) {
        Ok((fs.dirs[p].subdirs, fs.dirs[p].file_names()))
    } else {
        Err(DIR_NOT_FOUND)
    }
}

/// What `cd(path)` does: `..` drops the last part of the working directory;
/// any other path becomes the working directory if it names a directory.
pub open spec fn cd_spec(fs: RamfsView, path: Seq<char>) -> (RamfsView, Result<(), &'static str>) {
    if path == seq!['.', '.'] {
        if fs.cwd == seq!['/'] {
            (fs, Ok(()))
        } else {
            match last_slash(fs.cwd) {
                Some(pos) => (
                    RamfsView {
                        dirs: fs.dirs,
                        cwd: if pos == 0 { seq!['/'] } else { fs.cwd.take(pos) },
                    },
                    Ok(()),
                ),
                None => (fs, Ok(())),
            }
        }
    } else {
        let r = resolve(fs.cwd, path);
        if fs.dirs.contains_key(components(r)) {
            (RamfsView { dirs: fs.dirs, cwd: r }, Ok(()))
        } else {
            (fs, Err(DIR_NOT_FOUND))
        }
    }
}

/// Looking up one more name goes to that subdirectory.
proof fn lemma_lookup_push(d: DirEntry, p: Seq<Seq<char>>, n: Seq<char>)
    requires
        d.lookup(p) is Some,
    ensures
        d.lookup(p.push(n)) == (if d.lookup(p).unwrap().subdir_names().contains(n) {
            Some(d.lookup(p).unwrap().child(n))
        } else {
            None
        }),
    decreases p.len(),
{
    let x = d.lookup(p).unwrap();
    if p.len() == 0 {
        assert(p.push(n) =~= seq![n]);
        assert(seq![n].drop_first() =~= Seq::<Seq<char>>::empty());
        if x.subdir_names().contains(n) {
            assert(x.child(n).lookup(Seq::<Seq<char>>::empty()) == Some(x.child(n)));
        }
    } else {
        assert(p.push(n).drop_first() =~= p.drop_first().push(n));
        assert(p.push(n)[0] == p[0]);
        lemma_lookup_push(d.child(p[0]), p.drop_first(), n);
    }
}

/// Every subdirectory named in a directory of the tree is in the tree.
proof fn lemma_tree_closed(d: DirEntry, p: Seq<Seq<char>>, n: Seq<char>)
    requires
        d.tree().contains_key(p),
    ensures
        d.tree().contains_key(p.push(n)) == d.tree()[p].subdirs.contains(n),
{
    lemma_lookup_push(d, p, n);
}

proof fn lemma_graft_local(t: Map<Seq<Seq<char>>, DirView>, pc: Seq<Seq<char>>, x: DirView)
    requires
        t.contains_key(pc),
    ensures
        subtree(t, pc).contains_key(seq![]),
        subtree(t, pc)[seq![]] == t[pc],
        graft(t, pc, subtree(t, pc).insert(seq![], x)) == t.insert(pc, x),
{
    assert(pc + Seq::<Seq<char>>::empty() =~= pc);
    lemma_graft_insert(t, pc, subtree(t, pc), seq![], x);
    lemma_graft_subtree(t, pc);
}

proof fn lemma_graft_child(t: Map<Seq<Seq<char>>, DirView>, pc: Seq<Seq<char>>, n: Seq<char>)
    ensures
        subtree(t, pc).contains_key(seq![n]) == t.contains_key(pc.push(n)),
        t.contains_key(pc.push(n)) ==> subtree(t, pc)[seq![n]] == t[pc.push(n)],
        pc + seq![n] == pc.push(n),
{
    assert(pc + seq![n] =~= pc.push(n));
}

impl Ramfs {
    pub open spec fn wf(&self) -> bool {
        &&& self.root.wf()
        &&& self.cwd@.len() > 0
        &&& self.cwd@[0] == '/'
    }

    /// An empty filesystem whose working directory is the root.
    pub fn new() -> (fs: Self)
        ensures
            fs.wf(),
            fs@ == (RamfsView {
                dirs: Map::<Seq<Seq<char>>, DirView>::empty().insert(seq![], empty_dir_view()),
                cwd: seq!['/'],
            }),
    {
        let mut cwd = String::new();
        push_char(&mut cwd, '/');
        Ramfs { root: DirEntry::new(), cwd }
    }

    /// `path` taken from the working directory.
    fn resolve_path(&self, path: &str) -> (r: String)
        ensures
            r@ == resolve(self.cwd@, path@),
    {
        let pv = chars_of(path);
        if pv.len() > 0 && pv[0] == '/' {
            return path.to_owned();
        }
        let cv = chars_of(self.cwd.as_str());
        let mut full = self.cwd.clone();
        if !(cv.len() > 0 && cv[cv.len() - 1] == '/') {
            push_char(&mut full, '/');
        }
        let mut i: usize = 0;
        let ghost base = full@;
        while i < pv.len()
            invariant
                pv@ == path@,
                i <= pv@.len(),
                full@ == base + pv@.take(i as int),
            decreases pv@.len() - i,
        {
            push_char(&mut full, pv[i]);
            i += 1;
            assert(full@ =~= base + pv@.take(i as int));
        }
        assert(pv@.take(pv@.len() as int) =~= pv@);
        full
    }

    /// The parent directory and the last name of `path`.
    fn split_path(&self, path: &str) -> (r: (String, String))
        ensures
            (r.0@, r.1@) == split_parent(self.cwd@, path@),
    {
        let resolved = self.resolve_path(path);
        let rv = chars_of(resolved.as_str());
        let n = rv.len();
        let mut i: usize = n;
        while i > 0 && rv[i - 1] != '/'
            invariant
                rv@ == resolved@,
                n == rv@.len(),
                i <= n,
                forall|j: int| i <= j < n ==> #[trigger] rv@[j] != '/',
            decreases i,
        {
            i -= 1;
        }
        proof {
            lemma_last_slash_suffix(rv@, i as int);
            if i > 0 {
                assert(rv@.take(i as int).last() == '/');
            } else {
                assert(rv@.take(0).len() == 0);
            }
        }
        if i == 0 {
            return (self.cwd.clone(), resolved);
        }
        let pos = i - 1;
        let parent = if pos == 0 {
            let mut root = String::new();
            push_char(&mut root, '/');
            root
        } else {
            substring(resolved.as_str(), 0, pos)
        };
        let name = substring(resolved.as_str(), pos + 1, n);
        assert(resolved@.subrange(0, pos as int) =~= resolved@.take(pos as int));
        assert(resolved@.subrange(pos + 1, n as int) =~= resolved@.skip(pos + 1));
        (parent, name)
    }

    /// The directory that `path` names.
    fn navigate(&self, path: &str) -> (r: Option<&DirEntry>)
        requires
            self.wf(),
        ensures
            match r {
                Some(d) => self.root.lookup(dir_path(self.cwd@, path@)) == Some(*d),
                None => self.root.lookup(dir_path(self.cwd@, path@)) is None,
            },
    {
        let resolved = self.resolve_path(path);
        let comps = split_tokens(resolved.as_str(), &Separator::Slash);
        assert(string_views(comps@).skip(0) =~= dir_path(self.cwd@, path@));
        self.root.lookup_ref(&comps, 0)
    }

    /// Makes the change `op` in the directory `parent`.
    fn update_dir(&mut self, parent: &String, op: &DirOp) -> (r: Result<(), &'static str>)
        requires
            old(self).wf(),
        ensures
            final(self).wf(),
            final(self).cwd == old(self).cwd,
            ({
                let p = components(parent@);
                let t = old(self)@.dirs;
                if t.contains_key(p) {
                    &&& final(self)@.dirs == graft(t, p, op_effect(subtree(t, p), *op).0)
                    &&& r == op_effect(subtree(t, p), *op).1
                } else {
                    &&& final(self)@.dirs == t
                    &&& r == Err::<(), &'static str>(PARENT_NOT_FOUND)
                }
            }),
    {
        let comps = split_tokens(parent.as_str(), &Separator::Slash);
        assert(string_views(comps@).skip(0) =~= components(parent@));
        self.root.update_at(&comps, 0, op)
    }

    /// Creates the directory `path`.
    pub fn mkdir(&mut self, path: &str) -> (r: Result<(), &'static str>)
        requires
            old(self).wf(),
        ensures
            final(self).wf(),
            (final(self)@, r) == mkdir_spec(old(self)@, path@),
    {
        let (parent_path, dir_name) = self.split_path(path);
        if dir_name.as_str().is_empty() {
            return Err(INVALID_DIR_NAME);
        }
        let ghost n = dir_name@;
        let op = DirOp::MakeDir(dir_name);
        let r = self.update_dir(&parent_path, &op);
        proof {
            let t = old(self)@.dirs;
            let pc = components(parent_path@);
            if t.contains_key(pc) {
                lemma_graft_local(t, pc, with_subdir(t[pc], n));
                lemma_graft_child(t, pc, n);
                lemma_graft_subtree(t, pc);
                if !t[pc].subdirs.contains(n) {
                    let s = subtree(t, pc).insert(seq![], with_subdir(t[pc], n));
                    lemma_graft_insert(t, pc, s, seq![n], empty_dir_view());
                }
            }
        }
        r
    }

    /// Creates the empty file `path` unless it exists already.
    pub fn create_file(&mut self, path: &str) -> (r: Result<(), &'static str>)
        requires
            old(self).wf(),
        ensures
            final(self).wf(),
            (final(self)@, r) == create_file_spec(old(self)@, path@),
    {
        let (parent_path, file_name) = self.split_path(path);
        if file_name.as_str().is_empty() {
            return Err(INVALID_FILE_NAME);
        }
        let ghost n = file_name@;
        let op = DirOp::CreateFile(file_name);
        let r = self.update_dir(&parent_path, &op);
        proof {
            let t = old(self)@.dirs;
            let pc = components(parent_path@);
            if t.contains_key(pc) {
                lemma_graft_local(t, pc, with_new_file(t[pc], n));
                lemma_graft_subtree(t, pc);
            }
        }
        r
    }

    /// Adds `data` at the end of the file `path`.
    pub fn write_file(&mut self, path: &str, data: &[u8]) -> (r: Result<(), &'static str>)
        requires
            old(self).wf(),
        ensures
            final(self).wf(),
            (final(self)@, r) == write_file_spec(old(self)@, path@, data@),
    {
        let (parent_path, file_name) = self.split_path(path);
        let ghost n = file_name@;
        let op = DirOp::Append(file_name, data);
        let r = self.update_dir(&parent_path, &op);
        proof {
            let t = old(self)@.dirs;
            let pc = components(parent_path@);
            if t.contains_key(pc) {
                lemma_graft_local(t, pc, with_appended(t[pc], n, data@));
                lemma_graft_subtree(t, pc);
            }
        }
        r
    }

    /// Removes the file `path`.
    pub fn delete_file(&mut self, path: &str) -> (r: Result<(), &'static str>)
        requires
            old(self).wf(),
        ensures
            final(self).wf(),
            (final(self)@, r) == delete_file_spec(old(self)@, path@),
    {
        let (parent_path, file_name) = self.split_path(path);
        let ghost n = file_name@;
        let op = DirOp::DeleteFile(file_name);
        let r = self.update_dir(&parent_path, &op);
        proof {
            let t = old(self)@.dirs;
            let pc = components(parent_path@);
            if t.contains_key(pc) {
                lemma_graft_local(t, pc, without_file(t[pc], n));
                lemma_graft_subtree(t, pc);
            }
        }
        r
    }

    /// Removes the empty directory `path`.
    pub fn rmdir(&mut self, path: &str) -> (r: Result<(), &'static str>)
        requires
            old(self).wf(),
        ensures
            final(self).wf(),
            (final(self)@, r) == rmdir_spec(old(self)@, path@),
    {
        let (parent_path, dir_name) = self.split_path(path);
        let ghost n = dir_name@;
        let op = DirOp::RemoveDir(dir_name);
        let r = self.update_dir(&parent_path, &op);
        proof {
            let t = old(self)@.dirs;
            let pc = components(parent_path@);
            if t.contains_key(pc) {
                lemma_graft_local(t, pc, without_subdir(t[pc], n));
                lemma_graft_child(t, pc, n);
                lemma_tree_closed(old(self).root, pc, n);
                lemma_graft_subtree(t, pc);
                let s = subtree(t, pc);
                lemma_graft_insert(t, pc, s.remove(seq![n]), seq![], without_subdir(t[pc], n));
                lemma_graft_remove(t, pc, s, seq![n]);
                assert(pc + Seq::<Seq<char>>::empty() =~= pc);
            }
        }
        r
    }

    /// The file in the directory `parent` named `name`.
    fn find_file(&self, parent: &String, name: &String) -> (r: Result<&FileMeta, &'static str>)
        requires
            self.wf(),
        ensures
            ({
                let t = self@.dirs;
                let pc = components(parent@);
                if !t.contains_key(pc) {
                    r == Err::<&FileMeta, &'static str>(PARENT_NOT_FOUND)
                } else if !t[pc].file_names().contains(name@) {
                    r == Err::<&FileMeta, &'static str>(FILE_NOT_FOUND)
                } else {
                    r matches Ok(f) && f@ == t[pc].files[t[pc].file_names().index_of(name@)].1
                }
            }),
    {
        let comps = split_tokens(parent.as_str(), &Separator::Slash);
        assert(string_views(comps@).skip(0) =~= components(parent@));
        match self.root.lookup_ref(&comps, 0) {
            None => Err(PARENT_NOT_FOUND),
            Some(d) => {
                proof {
                    let pc = components(parent@);
                    assert(self@.dirs.contains_key(pc));
                    assert(self@.dirs[pc] == d.local());
                    lemma_local_names(*d);
                    assert(self@.dirs[pc].wf());
                    lemma_sorted_no_duplicates(key_names(d.files@));
                }
                match find_key(&d.files, name) {
                    None => Err(FILE_NOT_FOUND),
                    Some(j) => {
                        proof {
                            lemma_index_of_unique(key_names(d.files@), j as int);
                        }
                        Ok(&d.files[j].1)
                    },
                }
            },
        }
    }

    /// The contents of the file `path`.
    pub fn read_file(&self, path: &str) -> (r: Result<&[u8], &'static str>)
        requires
            self.wf(),
        ensures
            match file_at(self@, path@) {
                Ok(f) => r matches Ok(data) && data@ == f.content,
                Err(e) => r == Err::<&[u8], &'static str>(e),
            },
    {
        let (parent_path, file_name) = self.split_path(path);
        match self.find_file(&parent_path, &file_name) {
            Ok(f) => Ok(f.content.as_slice()),
            Err(e) => Err(e),
        }
    }

    /// The size of the file `path`.
    pub fn file_info(&self, path: &str) -> (r: Result<(usize,), &'static str>)
        requires
            self.wf(),
        ensures
            match file_at(self@, path@) {
                Ok(f) => r == Ok::<(usize,), &'static str>((f.size,)),
                Err(e) => r == Err::<(usize,), &'static str>(e),
            },
    {
        let (parent_path, file_name) = self.split_path(path);
        match self.find_file(&parent_path, &file_name) {
            Ok(f) => Ok((f.size,)),
            Err(e) => Err(e),
        }
    }

    /// The names of the subdirectories and of the files of the directory `path`, each in order.
    pub fn list_dir(&self, path: &str) -> (r: Result<(Vec<String>, Vec<String>), &'static str>)
        requires
            self.wf(),
        ensures
            match list_dir_spec(self@, path@) {
                Ok((dirs, files)) => r matches Ok((ds, fs)) && string_views(ds@) == dirs
                    && string_views(fs@) == files,
                Err(e) => r == Err::<(Vec<String>, Vec<String>), &'static str>(e),
            },
    {
        match self.navigate(path) {
            None => Err(DIR_NOT_FOUND),
            Some(d) => {
                let mut dirs: Vec<String> = Vec::new();
                let mut i: usize = 0;
                while i < d.subdirs.len()
                    invariant
                        i <= d.subdirs@.len(),
                        string_views(dirs@) == d.subdir_names().take(i as int),
                    decreases d.subdirs@.len() - i,
                {
                    let name = d.subdirs[i].0.clone();
                    let ghost before = dirs@;
                    dirs.push(name);
                    assert(string_views(dirs@) =~= string_views(before).push(name@));
                    i += 1;
                    assert(string_views(dirs@) =~= d.subdir_names().take(i as int));
                }
                let mut files: Vec<String> = Vec::new();
                let mut i: usize = 0;
                while i < d.files.len()
                    invariant
                        i <= d.files@.len(),
                        string_views(files@) == key_names(d.files@).take(i as int),
                    decreases d.files@.len() - i,
                {
                    let name = d.files[i].0.clone();
                    let ghost before = files@;
                    files.push(name);
                    assert(string_views(files@) =~= string_views(before).push(name@));
                    i += 1;
                    assert(string_views(files@) =~= key_names(d.files@).take(i as int));
                }
                proof {
                    lemma_local_names(*d);
                    assert(d.subdir_names().take(d.subdirs@.len() as int) =~= d.subdir_names());
                    assert(key_names(d.files@).take(d.files@.len() as int) =~= key_names(d.files@));
                }
                Ok((dirs, files))
            },
        }
    }

    /// Changes the working directory.
    pub fn cd(&mut self, path: &str) -> (r: Result<(), &'static str>)
        requires
            old(self).wf(),
        ensures
            final(self).wf(),
            (final(self)@, r) == cd_spec(old(self)@, path@),
    {
        let pv = chars_of(path);
        if pv.len() == 2 && pv[0] == '.' && pv[1] == '.' {
            assert(path@ =~= seq!['.', '.']);
            let cv = chars_of(self.cwd.as_str());
            if cv.len() == 1 && cv[0] == '/' {
                assert(self.cwd@ =~= seq!['/']);
                return Ok(());
            }
            let n = cv.len();
            let mut i: usize = n;
            while i > 0 && cv[i - 1] != '/'
                invariant
                    cv@ == self.cwd@,
                    n == cv@.len(),
                    i <= n,
                    forall|j: int| i <= j < n ==> #[trigger] cv@[j] != '/',
                decreases i,
            {
                i -= 1;
            }
            proof {
                lemma_last_slash_suffix(cv@, i as int);
                if i > 0 {
                    assert(cv@.take(i as int).last() == '/');
                } else {
                    assert(cv@.take(0).len() == 0);
                }
            }
            if i > 0 {
                let pos = i - 1;
                if pos == 0 {
                    let mut root = String::new();
                    push_char(&mut root, '/');
                    self.cwd = root;
                } else {
                    let up = substring(self.cwd.as_str(), 0, pos);
                    assert(up@ =~= old(self).cwd@.take(pos as int));
                    self.cwd = up;
                }
            }
            return Ok(());
        }
        assert(path@ != seq!['.', '.']) by {
            if path@ == seq!['.', '.'] {
                assert(pv@.len() == 2 && pv@[0] == '.' && pv@[1] == '.');
            }
        }
        let resolved = self.resolve_path(path);
        let found = self.navigate(path).is_some();
        if found {
            proof {
                let rv = resolved@;
                if !(path@.len() > 0 && path@[0] == '/') {
                    assert(rv[0] == self.cwd@[0]);
                }
            }
            self.cwd = resolved;
            Ok(())
        } else {
            Err(DIR_NOT_FOUND)
        }
    }

    /// The working directory.
    pub fn pwd(&self) -> (r: &str)
        ensures
            r@ == self.cwd@,
    {
        self.cwd.as_str()
    }
}


// ---------------------------------------------------------------------------
// Laws
// ---------------------------------------------------------------------------

proof fn lemma_sorted_pos_props(s: Seq<Seq<char>>, x: Seq<char>)
    ensures
        sorted_pos(s, x) <= s.len(),
        forall|i: int| 0 <= i < sorted_pos(s, x) ==> !lex_lt(x, #[trigger] s[i]),
        sorted_pos(s, x) == s.len() || lex_lt(x, s[sorted_pos(s, x) as int]),
    decreases s.len(),
{
    if s.len() > 0 && !lex_lt(x, s[0]) {
        let t = s.drop_first();
        lemma_sorted_pos_props(t, x);
        assert forall|i: int| 0 <= i < sorted_pos(s, x) implies !lex_lt(x, #[trigger] s[i]) by {
            if i > 0 {
                assert(s[i] == t[i - 1]);
            }
        }
        if sorted_pos(s, x) < s.len() {
            assert(s[sorted_pos(s, x) as int] == t[sorted_pos(t, x) as int]);
        }
    }
}

proof fn lemma_insert_sorted(s: Seq<Seq<char>>, x: Seq<char>)
    requires
        strictly_sorted(s),
        !s.contains(x),
    ensures
        strictly_sorted(insert_sorted(s, x)),
        insert_sorted(s, x).contains(x),
        insert_sorted(s, x).remove(insert_sorted(s, x).index_of(x)) == s,
{
    lemma_sorted_pos_props(s, x);
    let k = sorted_pos(s, x) as int;
    lemma_insert_sorted_keeps_order(s, x, k);
    let r = insert_sorted(s, x);
    assert(r[k] == x);
    lemma_sorted_no_duplicates(r);
    lemma_index_of_unique(r, k);
    assert(r.remove(k) =~= s);
}

/// Making a directory and then removing it leaves the filesystem as it was.
pub proof fn law_mkdir_then_rmdir(fs: Ramfs, path: Seq<char>)
    requires
        fs.wf(),
        mkdir_spec(fs@, path).1 is Ok,
    ensures
        rmdir_spec(mkdir_spec(fs@, path).0, path) == (fs@, Ok::<(), &'static str>(())),
{
    let v = fs@;
    let pc = parent_dir(v.cwd, path);
    let n = base_name(v.cwd, path);
    let x = v.dirs[pc];
    assert(x.wf());
    lemma_insert_sorted(x.subdirs, n);
    lemma_tree_closed(fs.root, pc, n);
    let v1 = mkdir_spec(v, path).0;
    assert(pc != pc.push(n)) by {
        assert(pc.len() != pc.push(n).len());
    }
    assert(v1.dirs[pc.push(n)] == empty_dir_view());
    assert(without_subdir(with_subdir(x, n), n) =~= x);
    assert(v1.dirs.remove(pc.push(n)).insert(pc, x) =~= v.dirs);
}

/// Creating a file that is already there changes nothing.
pub proof fn law_create_file_idempotent(fs: Ramfs, path: Seq<char>)
    requires
        fs.wf(),
        create_file_spec(fs@, path).1 is Ok,
    ensures
        create_file_spec(create_file_spec(fs@, path).0, path) == create_file_spec(fs@, path),
{
    let v = fs@;
    let pc = parent_dir(v.cwd, path);
    let n = base_name(v.cwd, path);
    let x = v.dirs[pc];
    if !x.file_names().contains(n) {
        lemma_sorted_pos_props(x.file_names(), n);
        let k = sorted_pos(x.file_names(), n) as int;
        let y = with_new_file(x, n);
        assert(y.file_names() =~= x.file_names().insert(k, n));
        assert(y.file_names()[k] == n);
    }
}

/// Reading a file after writing to it gives what it held before, followed by what was written.
pub proof fn law_write_then_read(fs: Ramfs, path: Seq<char>, data: Seq<u8>)
    requires
        fs.wf(),
        file_at(fs@, path) is Ok,
    ensures
        write_file_spec(fs@, path, data).1 is Ok,
        file_at(write_file_spec(fs@, path, data).0, path) == Ok::<FileView, &'static str>(
            appended(file_at(fs@, path)->Ok_0, data),
        ),
{
    let v = fs@;
    let pc = parent_dir(v.cwd, path);
    let n = base_name(v.cwd, path);
    let x = v.dirs[pc];
    let y = with_appended(x, n, data);
    let i = x.file_names().index_of(n);
    assert(y.file_names() =~= x.file_names());
}

/// A listing names its subdirectories and its files each in strict order, so each name once.
pub proof fn law_listing_sorted(fs: Ramfs, path: Seq<char>)
    requires
        fs.wf(),
        list_dir_spec(fs@, path) is Ok,
    ensures
        strictly_sorted(list_dir_spec(fs@, path)->Ok_0.0),
        strictly_sorted(list_dir_spec(fs@, path)->Ok_0.1),
{
    let p = dir_path(fs@.cwd, path);
    assert(fs@.dirs[p].wf());
}

/// The size a file reports is the length of what it holds.
pub proof fn law_size_is_length(fs: Ramfs, path: Seq<char>)
    requires
        fs.wf(),
        file_at(fs@, path) is Ok,
    ensures
        file_at(fs@, path)->Ok_0.size == file_at(fs@, path)->Ok_0.content.len(),
{
    let v = fs@;
    let pc = parent_dir(v.cwd, path);
    let n = base_name(v.cwd, path);
    let x = v.dirs[pc];
    assert(x.wf());
    let i = x.file_names().index_of(n);
    assert(0 <= i < x.files.len());
    assert(x.files[i] == x.files[i]);
}


proof fn lemma_with_new_file(x: DirView, n: Seq<char>)
    requires
        x.wf(),
        !x.file_names().contains(n),
    ensures
        with_new_file(x, n).wf(),
        with_new_file(x, n).file_names().contains(n),
        with_new_file(x, n).files[with_new_file(x, n).file_names().index_of(n)].1 == new_file_view(),
        with_new_file(x, n).file_names().remove(with_new_file(x, n).file_names().index_of(n)) == x.file_names(),
        with_new_file(x, n).files.remove(with_new_file(x, n).file_names().index_of(n)) == x.files,
{
    let y = with_new_file(x, n);
    lemma_sorted_pos_props(x.file_names(), n);
    let k = sorted_pos(x.file_names(), n) as int;
    assert(y.file_names() =~= x.file_names().insert(k, n));
    lemma_insert_sorted(x.file_names(), n);
    lemma_sorted_no_duplicates(y.file_names());
    assert(y.file_names()[k] == n);
    lemma_index_of_unique(y.file_names(), k);
    assert(y.files.remove(k) =~= x.files);
    assert forall|i: int| 0 <= i < y.files.len() implies (#[trigger] y.files[i]).1.size == y.files[i].1.content.len() by {
        if i < k {
            assert(y.files[i] == x.files[i]);
        } else if i > k {
            assert(y.files[i] == x.files[i - 1]);
        }
    }
}

proof fn lemma_without_file(x: DirView, n: Seq<char>)
    requires
        x.wf(),
        x.file_names().contains(n),
    ensures
        without_file(x, n).wf(),
        !without_file(x, n).file_names().contains(n),
{
    let y = without_file(x, n);
    let i = x.file_names().index_of(n);
    lemma_sorted_no_duplicates(x.file_names());
    assert(y.file_names() =~= x.file_names().remove(i));
    lemma_remove_keeps_order(x.file_names(), i);
    assert(!y.file_names().contains(n)) by {
        if y.file_names().contains(n) {
            let j = y.file_names().index_of(n);
            let j2 = if j < i { j } else { j + 1 };
            assert(x.file_names()[j2] == n);
        }
    }
    assert forall|j: int| 0 <= j < y.files.len() implies (#[trigger] y.files[j]).1.size == y.files[j].1.content.len() by {
        if j < i {
            assert(y.files[j] == x.files[j]);
        } else {
            assert(y.files[j] == x.files[j + 1]);
        }
    }
}

/// Creating a file that was not there and then deleting it leaves the filesystem as it was.
pub proof fn law_create_then_delete(fs: Ramfs, path: Seq<char>)
    requires
        fs.wf(),
        create_file_spec(fs@, path).1 is Ok,
        file_at(fs@, path) is Err,
    ensures
        delete_file_spec(create_file_spec(fs@, path).0, path) == (fs@, Ok::<(), &'static str>(())),
{
    let v = fs@;
    let pc = parent_dir(v.cwd, path);
    let n = base_name(v.cwd, path);
    let x = v.dirs[pc];
    assert(x.wf());
    lemma_with_new_file(x, n);
    let y = with_new_file(x, n);
    assert(without_file(y, n) =~= x);
    assert(v.dirs.insert(pc, y).insert(pc, x) =~= v.dirs);
}

/// Making sure a file exists, deleting it, creating it again and writing
/// `data` leaves it holding exactly `data`.
pub proof fn law_rewrite_then_read(fs: Ramfs, path: Seq<char>, data: Seq<u8>)
    requires
        fs.wf(),
        fs@.dirs.contains_key(parent_dir(fs@.cwd, path)),
        base_name(fs@.cwd, path).len() > 0,
    ensures
        ({
            let fs1 = create_file_spec(fs@, path).0;
            let fs2 = delete_file_spec(fs1, path).0;
            let fs3 = create_file_spec(fs2, path).0;
            let fs4 = write_file_spec(fs3, path, data).0;
            file_at(fs4, path) == Ok::<FileView, &'static str>(appended(new_file_view(), data))
        }),
{
    let v = fs@;
    let pc = parent_dir(v.cwd, path);
    let n = base_name(v.cwd, path);
    let x0 = v.dirs[pc];
    assert(x0.wf());
    let x1 = if x0.file_names().contains(n) { x0 } else { with_new_file(x0, n) };
    if !x0.file_names().contains(n) {
        lemma_with_new_file(x0, n);
    }
    let fs1 = create_file_spec(v, path).0;
    assert(fs1.dirs[pc] == x1);
    lemma_without_file(x1, n);
    let x2 = without_file(x1, n);
    let fs2 = delete_file_spec(fs1, path).0;
    assert(fs2.dirs[pc] == x2);
    lemma_with_new_file(x2, n);
    let x3 = with_new_file(x2, n);
    let fs3 = create_file_spec(fs2, path).0;
    assert(fs3.dirs[pc] == x3);
    let x4 = with_appended(x3, n, data);
    let fs4 = write_file_spec(fs3, path, data).0;
    assert(fs4.dirs[pc] == x4);
    assert(x4.file_names() =~= x3.file_names());
}


/// Creating a file where none was gives an empty file; writing `d1` and then
/// `d2` to it succeeds, and the file then holds `d1` followed by `d2`, its
/// size their total length.
pub proof fn law_create_then_two_writes(fs: Ramfs, path: Seq<char>, d1: Seq<u8>, d2: Seq<u8>)
    requires
        fs.wf(),
        fs@.dirs.contains_key(parent_dir(fs@.cwd, path)),
        base_name(fs@.cwd, path).len() > 0,
        file_at(fs@, path) is Err,
        d1.len() + d2.len() <= usize::MAX,
    ensures
        ({
            let c = create_file_spec(fs@, path);
            let w1 = write_file_spec(c.0, path, d1);
            let w2 = write_file_spec(w1.0, path, d2);
            &&& c.1 is Ok
            &&& file_at(c.0, path) == Ok::<FileView, &'static str>(new_file_view())
            &&& w1.1 is Ok
            &&& file_at(w1.0, path) == Ok::<FileView, &'static str>(appended(new_file_view(), d1))
            &&& w2.1 is Ok
            &&& file_at(w2.0, path) matches Ok(f)
            &&& f.content == d1 + d2
            &&& f.size == d1.len() + d2.len()
        }),
{
    let v = fs@;
    let pc = parent_dir(v.cwd, path);
    let n = base_name(v.cwd, path);
    let x0 = v.dirs[pc];
    assert(x0.wf());
    lemma_with_new_file(x0, n);
    let x1 = with_new_file(x0, n);
    let fs1 = create_file_spec(v, path).0;
    assert(fs1.dirs[pc] == x1);
    let x2 = with_appended(x1, n, d1);
    let fs2 = write_file_spec(fs1, path, d1).0;
    assert(fs2.dirs[pc] == x2);
    assert(x2.file_names() =~= x1.file_names());
    let x3 = with_appended(x2, n, d2);
    let fs3 = write_file_spec(fs2, path, d2).0;
    assert(fs3.dirs[pc] == x3);
    assert(x3.file_names() =~= x2.file_names());
    assert(seq![] + d1 + d2 =~= d1 + d2);
    assert(Seq::<u8>::empty() + d1 =~= d1);
}

/// `cd ..` leaves the directory named last in the working directory: from
/// `P/name` it goes up to `P`, or to `/` when `P` is empty, and always succeeds.
pub proof fn law_cd_up(fs: Ramfs, parent: Seq<char>, name: Seq<char>)
    requires
        fs.wf(),
        fs@.cwd == parent + seq!['/'] + name,
        name.len() > 0,
        !name.contains('/'),
    ensures
        cd_spec(fs@, seq!['.', '.']).1 is Ok,
        cd_spec(fs@, seq!['.', '.']).0.dirs == fs@.dirs,
        cd_spec(fs@, seq!['.', '.']).0.cwd == (if parent.len() == 0 { seq!['/'] } else { parent }),
{
    let cwd = fs@.cwd;
    let k = parent.len() as int;
    assert(cwd.len() >= 2);
    assert(cwd != seq!['/']) by {
        if cwd == seq!['/'] {
            assert(cwd.len() == 1);
        }
    }
    assert forall|j: int| k + 1 <= j < cwd.len() implies #[trigger] cwd[j] != '/' by {
        assert(cwd[j] == name[j - k - 1]);
        if cwd[j] == '/' {
            assert(name.contains('/'));
        }
    }
    lemma_last_slash_suffix(cwd, k + 1);
    assert(cwd.take(k + 1).last() == '/');
    assert(last_slash(cwd.take(k + 1)) == Some(k));
    assert(cwd.take(k) =~= parent);
}

/// The filesystem after the boot-time layout: the directories `home`, `etc`
/// and `tmp`, and the files `/etc/hostname` and `/etc/version` with their
/// text, each step's failure ignored.
pub open spec fn default_layout_spec(fs: RamfsView) -> RamfsView {
    let fs1 = mkdir_spec(fs, "home"@).0;
    let fs2 = mkdir_spec(fs1, "etc"@).0;
    let fs3 = mkdir_spec(fs2, "tmp"@).0;
    let fs4 = create_file_spec(fs3, "/etc/hostname"@).0;
    let fs5 = write_file_spec(fs4, "/etc/hostname"@, "nexus\n".spec_bytes()).0;
    let fs6 = create_file_spec(fs5, "/etc/version"@).0;
    write_file_spec(fs6, "/etc/version"@, "NexusOS 0.1.0\n".spec_bytes()).0
}

/// Creates the directories and files the system starts with.
pub fn create_default_layout(fs: &mut Ramfs)
    requires
        old(fs).wf(),
    ensures
        final(fs).wf(),
        final(fs)@ == default_layout_spec(old(fs)@),
{
    let _ = fs.mkdir("home");
    let _ = fs.mkdir("etc");
    let _ = fs.mkdir("tmp");
    let _ = fs.create_file("/etc/hostname");
    let _ = fs.write_file("/etc/hostname", "nexus\n".as_bytes());
    let _ = fs.create_file("/etc/version");
    let _ = fs.write_file("/etc/version", "NexusOS 0.1.0\n".as_bytes());
}

} // verus!
