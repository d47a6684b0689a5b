//! The order in which a directory tree is archived: depth first, each
//! directory's record before its contents, the entries of one directory by
//! the bytes of their names. The walker decides; its caller lists the
//! directories it asks for and hands back what it found.
use vstd::prelude::*;
use crate::order::{SortKey, insertion_sort};
use crate::request::{ArchiveRequest, is_within, segs_view, within_root};
use crate::tar::{ArchiveEntry, EntryKind, push_bytes};

verus! {

broadcast use vstd::seq_lib::group_to_multiset_ensures;

/// What a directory listing found at a name.
#[derive(Clone, Copy, Debug, PartialEq, Eq, Structural)]
pub enum ChildKind {
    File,
    Directory,
    /// A link, device, socket or pipe: never followed, never archived.
    Other,
}

/// What a listing records for an entry found at `parent` (the canonical
/// path of the directory being listed). A symbolic link counts as what it
/// points to (`target`, canonical, of kind `target_kind`) only when that lies
/// inside the archived directory `root` and, for a directory, is not `parent`
/// or one of its ancestors, so that the walk neither leaves the archived tree
/// nor runs in a circle; otherwise it is `Other`. Anything else is what it is.
pub fn classify_entry(
    is_link: bool,
    root: &Vec<Vec<u8>>,
    parent: &Vec<Vec<u8>>,
    target: &Vec<Vec<u8>>,
    target_kind: ChildKind,
) -> (k: ChildKind)
    ensures
        k == if is_link && (!is_within(segs_view(root@), segs_view(target@)) || (target_kind
            == ChildKind::Directory && is_within(segs_view(target@), segs_view(parent@)))) {
            ChildKind::Other
        } else {
            target_kind
        },
{
    if is_link {
        if !within_root(root, target) {
            return ChildKind::Other;
        }
        if target_kind == ChildKind::Directory && within_root(target, parent) {
            return ChildKind::Other;
        }
    }
    target_kind
}

/// One entry of a directory listing.
#[derive(Clone, Debug)]
pub struct Child {
    pub name: Vec<u8>,
    pub kind: ChildKind,
    pub size: u64,
    pub mtime: u64,
    pub mode: u64,
}

/// Why a walk stopped.
#[derive(Clone, Copy, Debug, PartialEq, Eq, Structural)]
pub enum WalkError {
    /// A listing held something other than a file or a directory.
    UnsupportedEntry,
    /// A listing held an empty name, `.`, `..`, or a name with `/` or NUL.
    InvalidName,
    /// A listing came when none was asked for, or a step when a listing was due.
    OutOfOrder,
}

/// `a` comes before `b`, or equals it, byte by byte.
pub open spec fn lex_le(a: Seq<u8>, b: Seq<u8>) -> bool
    decreases a.len(),
{
    if a.len() == 0 {
        true
    } else if b.len() == 0 {
        false
    } else if a[0] != b[0] {
        a[0] < b[0]
    } else {
        lex_le(a.drop_first(), b.drop_first())
    }
}

pub proof fn lemma_lex_total(a: Seq<u8>, b: Seq<u8>)
    ensures
        lex_le(a, b) || lex_le(b, a),
    decreases a.len(),
{
    if a.len() > 0 && b.len() > 0 && a[0] == b[0] {
        lemma_lex_total(a.drop_first(), b.drop_first());
    }
}

pub proof fn lemma_lex_trans(a: Seq<u8>, b: Seq<u8>, c: Seq<u8>)
    requires
        lex_le(a, b),
        lex_le(b, c),
    ensures
        lex_le(a, c),
    decreases a.len(),
{
    if a.len() > 0 && b.len() > 0 && c.len() > 0 && a[0] == b[0] && b[0] == c[0] {
        lemma_lex_trans(a.drop_first(), b.drop_first(), c.drop_first());
    }
}

pub proof fn lemma_lex_refl(a: Seq<u8>)
    ensures
        lex_le(a, a),
    decreases a.len(),
{
    if a.len() > 0 {
        lemma_lex_refl(a.drop_first());
    }
}

pub proof fn lemma_lex_antisym(a: Seq<u8>, b: Seq<u8>)
    requires
        lex_le(a, b),
        lex_le(b, a),
    ensures
        a == b,
    decreases a.len(),
{
    if a.len() == 0 {
        assert(a =~= b);
    } else {
        lemma_lex_antisym(a.drop_first(), b.drop_first());
        assert forall|i: int| 0 <= i < a.len() implies a[i] == b[i] by {
            if i > 0 {
                assert(a[i] == a.drop_first()[i - 1]);
                assert(b[i] == b.drop_first()[i - 1]);
            }
        }
        assert(a =~= b);
    }
}

/// No two children share a name, as in any one directory.
pub open spec fn names_distinct(s: Seq<Child>) -> bool {
    forall|i: int, j: int| 0 <= i < s.len() && 0 <= j < s.len() && i != j ==> #[trigger] s[i].name@ != #[trigger] s[j].name@
}

/// The children's names ascend.
pub open spec fn sorted_by_name(s: Seq<Child>) -> bool {
    forall|i: int, j: int| 0 <= i < j < s.len() ==> lex_le(#[trigger] s[i].name@, #[trigger] s[j].name@)
}

/// Whether `a` sorts before `b` or equals it.
pub fn name_le(a: &Vec<u8>, b: &Vec<u8>) -> (r: bool)
    ensures
        r == lex_le(a@, b@),
{
    let mut i: usize = 0;
    assert(a@.skip(0) =~= a@);
    assert(b@.skip(0) =~= b@);
    while i < a.len() && i < b.len()
        invariant
            i <= a@.len(),
            i <= b@.len(),
            lex_le(a@, b@) == lex_le(a@.skip(i as int), b@.skip(i as int)),
        decreases a@.len() - i,
    {
        if a[i] != b[i] {
            return a[i] < b[i];
        }
        assert(a@.skip(i as int).drop_first() =~= a@.skip(i + 1));
        assert(b@.skip(i as int).drop_first() =~= b@.skip(i + 1));
        i = i + 1;
    }
    i == a.len()
}

impl SortKey for Child {
    open spec fn before(&self, other: &Child) -> bool {
        lex_le(self.name@, other.name@)
    }

    fn before_exec(&self, other: &Child) -> (r: bool) {
        name_le(&self.name, &other.name)
    }

    proof fn lemma_total(a: &Child, b: &Child) {
        lemma_lex_total(a.name@, b.name@);
    }

    proof fn lemma_trans(a: &Child, b: &Child, c: &Child) {
        lemma_lex_trans(a.name@, b.name@, c.name@);
    }
}

/// The children, ordered by name.
pub fn sort_children(v: Vec<Child>) -> (r: Vec<Child>)
    ensures
        sorted_by_name(r@),
        r@.to_multiset() == v@.to_multiset(),
{
    let r = insertion_sort(v);
    assert(sorted_by_name(r@)) by {
        assert forall|i: int, j: int| 0 <= i < j < r@.len() implies lex_le(#[trigger] r@[i].name@, #[trigger] r@[j].name@) by {
            assert(r@[i].before(&r@[j]));
        }
    }
    r
}

/// The order of a listing depends on what it holds alone, not on the order
/// the directory was read in: two name-ordered arrangements of the same
/// children, names distinct, are the same sequence.
pub proof fn law_listing_order_unique(a: Seq<Child>, b: Seq<Child>)
    requires
        sorted_by_name(a),
        sorted_by_name(b),
        a.to_multiset() == b.to_multiset(),
        names_distinct(a),
    ensures
        a == b,
    decreases a.len(),
{
    vstd::seq_lib::to_multiset_len(a);
    vstd::seq_lib::to_multiset_len(b);
    if a.len() == 0 {
        assert(a =~= b);
    } else {
        vstd::seq_lib::to_multiset_contains(a, a[0]);
        vstd::seq_lib::to_multiset_contains(b, a[0]);
        vstd::seq_lib::to_multiset_contains(a, b[0]);
        vstd::seq_lib::to_multiset_contains(b, b[0]);
        assert(a.contains(a[0]));
        assert(b.contains(b[0]));
        let j = choose|j: int| 0 <= j < b.len() && b[j] == a[0];
        let i = choose|i: int| 0 <= i < a.len() && a[i] == b[0];
        lemma_lex_refl(a[0].name@);
        lemma_lex_refl(b[0].name@);
        if j > 0 {
            assert(lex_le(b[0].name@, b[j].name@));
        }
        if i > 0 {
            assert(lex_le(a[0].name@, a[i].name@));
        }
        lemma_lex_antisym(a[0].name@, b[0].name@);
        assert(i == 0);
        let a1 = a.drop_first();
        let b1 = b.drop_first();
        vstd::seq_lib::to_multiset_remove(a, 0);
        vstd::seq_lib::to_multiset_remove(b, 0);
        assert(a.remove(0) =~= a1);
        assert(b.remove(0) =~= b1);
        assert(sorted_by_name(a1)) by {
            assert forall|x: int, y: int| 0 <= x < y < a1.len() implies lex_le(#[trigger] a1[x].name@, #[trigger] a1[y].name@) by {
                assert(a1[x] == a[x + 1] && a1[y] == a[y + 1]);
            }
        }
        assert(sorted_by_name(b1)) by {
            assert forall|x: int, y: int| 0 <= x < y < b1.len() implies lex_le(#[trigger] b1[x].name@, #[trigger] b1[y].name@) by {
                assert(b1[x] == b[x + 1] && b1[y] == b[y + 1]);
            }
        }
        assert(names_distinct(a1)) by {
            assert forall|x: int, y: int| 0 <= x < a1.len() && 0 <= y < a1.len() && x != y implies #[trigger] a1[x].name@ != #[trigger] a1[y].name@ by {
                assert(a1[x] == a[x + 1] && a1[y] == a[y + 1]);
            }
        }
        law_listing_order_unique(a1, b1);
        assert forall|k: int| 0 <= k < a.len() implies a[k] == b[k] by {
            if k > 0 {
                assert(a[k] == a1[k - 1]);
                assert(b[k] == b1[k - 1]);
            }
        }
        assert(a =~= b);
    }
}

/// `name` below `parent`; at the top, the name alone.
pub open spec fn join(parent: Seq<u8>, name: Seq<u8>) -> Seq<u8> {
    if parent.len() == 0 {
        name
    } else {
        parent.push(47u8) + name
    }
}

/// A name that a listing may hold: not empty, not `.` or `..`, without `/` or NUL.
pub open spec fn name_valid(n: Seq<u8>) -> bool {
    &&& n.len() > 0
    &&& n != seq![46u8]
    &&& n != seq![46u8, 46u8]
    &&& forall|i: int| 0 <= i < n.len() ==> #[trigger] n[i] != 47 && n[i] != 0
}

pub open spec fn entry_kind(k: ChildKind) -> EntryKind {
    if k == ChildKind::Directory {
        EntryKind::Directory
    } else {
        EntryKind::File
    }
}

/// `e` is the archive entry for child `c` of the directory at `parent`.
pub open spec fn entry_of(parent: Seq<u8>, c: Child, e: ArchiveEntry) -> bool {
    &&& e.path@ == join(parent, c.name@)
    &&& e.kind == entry_kind(c.kind)
    &&& e.size == (if c.kind == ChildKind::Directory {
        0
    } else {
        c.size
    })
    &&& e.mtime == c.mtime
    &&& e.mode == c.mode
}

/// Work left to the walk: a directory to list, or an entry to hand out.
pub enum Task {
    List(Vec<u8>),
    Emit(ArchiveEntry),
}

/// What the walk asks for next.
pub enum WalkStep {
    /// List the directory at this path (relative to the archived one) and
    /// hand the listing to `add_listing`.
    List(Vec<u8>),
    /// Archive this entry.
    Entry(ArchiveEntry),
    /// The tree is done.
    Done,
}

fn copy_bytes(s: &Vec<u8>) -> (r: Vec<u8>)
    ensures
        r@ == s@,
{
    let mut r: Vec<u8> = Vec::new();
    push_bytes(&mut r, s.as_slice());
    assert(r@ =~= s@);
    r
}

fn join_exec(parent: &Vec<u8>, name: &Vec<u8>) -> (r: Vec<u8>)
    ensures
        r@ == join(parent@, name@),
{
    let mut r = copy_bytes(parent);
    if parent.len() > 0 {
        r.push(47);
    }
    let mut n = copy_bytes(name);
    r.append(&mut n);
    r
}

fn name_valid_exec(n: &Vec<u8>) -> (r: bool)
    ensures
        r == name_valid(n@),
{
    let len = n.len();
    if len == 0 {
        return false;
    }
    if len == 1 && n[0] == 46 {
        assert(n@ =~= seq![46u8]);
        return false;
    }
    if len == 2 && n[0] == 46 && n[1] == 46 {
        assert(n@ =~= seq![46u8, 46u8]);
        return false;
    }
    assert(n@ != seq![46u8]) by {
        if n@ == seq![46u8] {
            assert(n@[0] == 46);
        }
    }
    assert(n@ != seq![46u8, 46u8]) by {
        if n@ == seq![46u8, 46u8] {
            assert(n@[0] == 46 && n@[1] == 46);
        }
    }
    let mut i: usize = 0;
    while i < len
        invariant
            len == n@.len(),
            i <= len,
            forall|j: int| 0 <= j < i ==> #[trigger] n@[j] != 47 && n@[j] != 0,
        decreases len - i,
    {
        if n[i] == 47 || n[i] == 0 {
            return false;
        }
        i = i + 1;
    }
    true
}

/// The walk of one archived directory.
pub struct Walker {
    tasks: Vec<Task>,
    awaiting: Option<Vec<u8>>,
}

impl Walker {
    /// Work left, the next at the end.
    pub closed spec fn tasks(&self) -> Seq<Task> {
        self.tasks@
    }

    /// The directory whose listing is due, if any.
    pub closed spec fn awaiting(&self) -> Option<Seq<u8>> {
        match self.awaiting {
            Some(p) => Some(p@),
            None => None,
        }
    }

    /// The walk of an admitted request's directory; it first asks for that
    /// directory itself (the empty path). Only `validate_request` makes an
    /// `ArchiveRequest`, so a refused request never starts a walk.
    pub fn new(_req: &ArchiveRequest) -> (w: Walker)
        ensures
            w.awaiting() is None,
            w.tasks().len() == 1,
            w.tasks()[0] is List && w.tasks()[0]->List_0@ == Seq::<u8>::empty(),
    {
        let mut tasks: Vec<Task> = Vec::new();
        tasks.push(Task::List(Vec::new()));
        Walker { tasks, awaiting: None }
    }

    /// Takes the next piece of work. A directory's entry comes out before
    /// anything below it: handing it out puts the request to list it next.
    pub fn next(&mut self) -> (r: Result<WalkStep, WalkError>)
        ensures
            (old(self).awaiting() is Some) ==> r == Err::<WalkStep, WalkError>(WalkError::OutOfOrder)
                && *final(self) == *old(self),
            (old(self).awaiting() is None) ==> r is Ok && match r->Ok_0 {
                WalkStep::Done => old(self).tasks().len() == 0 && final(self).tasks().len() == 0
                    && final(self).awaiting() is None,
                WalkStep::List(p) => {
                    &&& old(self).tasks().len() > 0
                    &&& old(self).tasks().last() is List
                    &&& p@ == old(self).tasks().last()->List_0@
                    &&& final(self).awaiting() == Some(p@)
                    &&& final(self).tasks() == old(self).tasks().drop_last()
                },
                WalkStep::Entry(e) => {
                    &&& old(self).tasks().len() > 0
                    &&& old(self).tasks().last() == Task::Emit(e)
                    &&& final(self).awaiting() is None
                    &&& if e.kind == EntryKind::Directory {
                        &&& final(self).tasks().len() == old(self).tasks().len()
                        &&& final(self).tasks().drop_last() == old(self).tasks().drop_last()
                        &&& final(self).tasks().last() is List
                        &&& final(self).tasks().last()->List_0@ == e.path@
                    } else {
                        final(self).tasks() == old(self).tasks().drop_last()
                    }
                },
            },
    {
        if self.awaiting.is_some() {
            return Err(WalkError::OutOfOrder);
        }
        match self.tasks.pop() {
            None => Ok(WalkStep::Done),
            Some(Task::List(p)) => {
                let q = copy_bytes(&p);
                self.awaiting = Some(q);
                Ok(WalkStep::List(p))
            },
            Some(Task::Emit(e)) => {
                if e.kind == EntryKind::Directory {
                    let q = copy_bytes(&e.path);
                    self.tasks.push(Task::List(q));
                }
                Ok(WalkStep::Entry(e))
            },
        }
    }

    /// Hands over the listing of the directory that `next` asked for. Its
    /// entries are queued to come out in the order of their names.
    pub fn add_listing(&mut self, children: Vec<Child>) -> (r: Result<(), WalkError>)
        ensures
            (old(self).awaiting() is None) ==> r == Err::<(), WalkError>(WalkError::OutOfOrder),
            (old(self).awaiting() is Some) ==> match r {
                Ok(()) => {
                    &&& forall|i: int| 0 <= i < children@.len() ==> #[trigger] children@[i].kind
                        != ChildKind::Other && name_valid(children@[i].name@)
                    &&& final(self).awaiting() is None
                    &&& final(self).tasks().len() == old(self).tasks().len() + children@.len()
                    &&& final(self).tasks().take(old(self).tasks().len() as int) == old(self).tasks()
                    &&& exists|s: Seq<Child>| {
                        &&& s.to_multiset() == children@.to_multiset()
                        &&& sorted_by_name(s)
                        &&& forall|k: int|
                            0 <= k < s.len() ==> {
                                let t = #[trigger] final(self).tasks()[old(self).tasks().len() + s.len() - 1 - k];
                                t is Emit && entry_of(old(self).awaiting()->0, s[k], t->Emit_0)
                            }
                    }
                },
                Err(WalkError::UnsupportedEntry) => exists|i: int|
                    0 <= i < children@.len() && #[trigger] children@[i].kind == ChildKind::Other,
                Err(WalkError::InvalidName) => {
                    &&& forall|i: int| 0 <= i < children@.len() ==> #[trigger] children@[i].kind
                        != ChildKind::Other
                    &&& exists|i: int| 0 <= i < children@.len() && !name_valid(#[trigger] children@[i].name@)
                },
                Err(WalkError::OutOfOrder) => false,
            },
            r is Err ==> final(self).tasks() == old(self).tasks() && final(self).awaiting() is None,
    {
        let parent = match &self.awaiting {
            None => {
                return Err(WalkError::OutOfOrder);
            },
            Some(p) => copy_bytes(p),
        };
        self.awaiting = None;
        let ghost was = old(self).awaiting();
        assert(was == Some(parent@));
        let n = children.len();
        let mut i: usize = 0;
        while i < n
            invariant
                n == children@.len(),
                i <= n,
                was == old(self).awaiting(),
                was == Some(parent@),
                self.tasks@ == old(self).tasks(),
                self.awaiting is None,
                forall|j: int| 0 <= j < i ==> #[trigger] children@[j].kind != ChildKind::Other,
            decreases n - i,
        {
            if children[i].kind == ChildKind::Other {
                return Err(WalkError::UnsupportedEntry);
            }
            i = i + 1;
        }
        i = 0;
        while i < n
            invariant
                n == children@.len(),
                i <= n,
                was == old(self).awaiting(),
                was == Some(parent@),
                self.tasks@ == old(self).tasks(),
                self.awaiting is None,
                forall|j: int| 0 <= j < n ==> #[trigger] children@[j].kind != ChildKind::Other,
                forall|j: int| 0 <= j < i ==> name_valid(#[trigger] children@[j].name@),
            decreases n - i,
        {
            if !name_valid_exec(&children[i].name) {
                return Err(WalkError::InvalidName);
            }
            i = i + 1;
        }
        let ghost kids = children@;
        let sorted = sort_children(children);
        let ghost s = sorted@;
        let ghost start = self.tasks@;
        let mut k: usize = sorted.len();
        while k > 0
            invariant
                s == sorted@,
                k <= s.len(),
                was == old(self).awaiting(),
                was == Some(parent@),
                start == old(self).tasks(),
                self.awaiting is None,
                s.to_multiset() == kids.to_multiset(),
                sorted_by_name(s),
                self.tasks@.len() == start.len() + (s.len() - k),
                self.tasks@.take(start.len() as int) == start,
                forall|m: int|
                    k <= m < s.len() ==> {
                        let t = #[trigger] self.tasks@[start.len() + s.len() - 1 - m];
                        t is Emit && entry_of(parent@, s[m], t->Emit_0)
                    },
            decreases k,
        {
            k = k - 1;
            let c = &sorted[k];
            let path = join_exec(&parent, &c.name);
            let e = ArchiveEntry {
                path,
                kind: if c.kind == ChildKind::Directory {
                    EntryKind::Directory
                } else {
                    EntryKind::File
                },
                size: if c.kind == ChildKind::Directory {
                    0
                } else {
                    c.size
                },
                mtime: c.mtime,
                mode: c.mode,
            };
            let ghost before = self.tasks@;
            self.tasks.push(Task::Emit(e));
            assert(self.tasks@.take(start.len() as int) =~= before.take(start.len() as int));
        }
        proof {
            assert(self.tasks@.len() == old(self).tasks().len() + kids.len()) by {
                vstd::seq_lib::to_multiset_len(s);
                vstd::seq_lib::to_multiset_len(kids);
            }
            assert(forall|m: int|
                0 <= m < s.len() ==> {
                    let t = #[trigger] self.tasks@[start.len() + s.len() - 1 - m];
                    t is Emit && entry_of(parent@, s[m], t->Emit_0)
                });
        }
        Ok(())
    }
}

} // verus!
