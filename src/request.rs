//! Turning the tail of an archive URL into a directory that lies inside the
//! served root. The tail is normalised by its text alone, so that `..` can
//! never climb above the root; the caller then resolves the result on disk,
//! and `validate_request` admits the resolved directory only if it is still
//! inside the root.
use vstd::prelude::*;

verus! {

/// Why an archive request was refused before any work began.
#[derive(Clone, Copy, Debug, PartialEq, Eq, Structural)]
pub enum InvalidRequestError {
    /// The path leads outside the served root.
    OutsideRoot,
    /// Nothing exists at the path.
    NotFound,
    /// The path names something other than a directory.
    NotADirectory,
}

/// The views of a sequence of byte vectors.
pub open spec fn segs_view(v: Seq<Vec<u8>>) -> Seq<Seq<u8>> {
    v.map_values(|x: Vec<u8>| x@)
}

/// The state of a left-to-right reading of a `/`-separated path: the
/// segments kept so far, the segment being read, and whether a `..` has
/// climbed above the start.
pub struct Scan {
    pub segs: Seq<Seq<u8>>,
    pub cur: Seq<u8>,
    pub escaped: bool,
}

/// Ends the segment being read: an empty one and `.` are dropped, `..`
/// removes the last kept segment, any other is kept.
pub open spec fn close_segment(st: Scan) -> Scan {
    if st.escaped {
        st
    } else if st.cur.len() == 0 || st.cur == seq![46u8] {
        Scan { cur: Seq::empty(), ..st }
    } else if st.cur == seq![46u8, 46u8] {
        if st.segs.len() == 0 {
            Scan { cur: Seq::empty(), escaped: true, ..st }
        } else {
            Scan { segs: st.segs.drop_last(), cur: Seq::empty(), ..st }
        }
    } else {
        Scan { segs: st.segs.push(st.cur), cur: Seq::empty(), ..st }
    }
}

pub open spec fn scan_step(st: Scan, b: u8) -> Scan {
    if st.escaped {
        st
    } else if b == 47 {
        close_segment(st)
    } else {
        Scan { cur: st.cur.push(b), ..st }
    }
}

pub open spec fn scan(s: Seq<u8>) -> Scan
    decreases s.len(),
{
    if s.len() == 0 {
        Scan { segs: Seq::empty(), cur: Seq::empty(), escaped: false }
    } else {
        scan_step(scan(s.drop_last()), s.last())
    }
}

/// The path read to its end.
pub open spec fn normalize(s: Seq<u8>) -> Scan {
    close_segment(scan(s))
}

/// `p` is `root` or lies below it, component by component.
pub open spec fn is_within(root: Seq<Seq<u8>>, p: Seq<Seq<u8>>) -> bool {
    root.len() <= p.len() && p.take(root.len() as int) == root
}

fn bytes_eq(a: &Vec<u8>, b: &Vec<u8>) -> (r: bool)
    ensures
        r == (a@ == b@),
{
    if a.len() != b.len() {
        return false;
    }
    let mut i: usize = 0;
    while i < a.len()
        invariant
            a@.len() == b@.len(),
            i <= a@.len(),
            a@.take(i as int) == b@.take(i as int),
        decreases a@.len() - i,
    {
        if a[i] != b[i] {
            return false;
        }
        assert(a@.take(i + 1) =~= a@.take(i as int).push(a@[i as int]));
        assert(b@.take(i + 1) =~= b@.take(i as int).push(b@[i as int]));
        i = i + 1;
    }
    assert(a@.take(a@.len() as int) =~= a@);
    assert(b@.take(b@.len() as int) =~= b@);
    true
}

fn close_segment_exec(segs: &mut Vec<Vec<u8>>, cur: Vec<u8>, escaped: &mut bool)
    ensures
        ({
            let st = close_segment(Scan { segs: segs_view(old(segs)@), cur: cur@, escaped: *old(escaped) });
            segs_view(final(segs)@) == st.segs && *final(escaped) == st.escaped
        }),
{
    if *escaped {
        return;
    }
    let n = cur.len();
    if n == 0 || (n == 1 && cur[0] == 46) {
        proof {
            if n == 1 {
                assert(cur@ =~= seq![46u8]);
            }
        }
        return;
    }
    if n == 2 && cur[0] == 46 && cur[1] == 46 {
        assert(cur@ =~= seq![46u8, 46u8]);
        if segs.len() == 0 {
            *escaped = true;
        } else {
            segs.pop();
            assert(segs_view(segs@) =~= segs_view(old(segs)@).drop_last());
        }
        return;
    }
    assert(cur@ != seq![46u8]) by {
        if cur@ == seq![46u8] {
            assert(cur@[0] == 46);
        }
    }
    assert(cur@ != seq![46u8, 46u8]) by {
        if cur@ == seq![46u8, 46u8] {
            assert(cur@[0] == 46 && cur@[1] == 46);
        }
    }
    segs.push(cur);
    assert(segs_view(segs@) =~= segs_view(old(segs)@).push(cur@));
}

/// Splits the tail of a request into the segments of a path below the root,
/// dropping empty segments and `.`, and resolving `..` against the segments
/// before it. A `..` with nothing left to remove is refused.
pub fn resolve_tail(tail: &[u8]) -> (r: Result<Vec<Vec<u8>>, InvalidRequestError>)
    ensures
        match r {
            Ok(segs) => !normalize(tail@).escaped && segs_view(segs@) == normalize(tail@).segs,
            Err(e) => normalize(tail@).escaped && e == InvalidRequestError::OutsideRoot,
        },
{
    let mut segs: Vec<Vec<u8>> = Vec::new();
    let mut cur: Vec<u8> = Vec::new();
    let mut escaped = false;
    let mut i: usize = 0;
    assert(segs_view(segs@) =~= Seq::<Seq<u8>>::empty());
    assert(tail@.take(0) =~= Seq::<u8>::empty());
    while i < tail.len()
        invariant
            i <= tail@.len(),
            scan(tail@.take(i as int)) == (Scan { segs: segs_view(segs@), cur: cur@, escaped }),
        decreases tail@.len() - i,
    {
        let b = tail[i];
        assert(tail@.take(i + 1).drop_last() =~= tail@.take(i as int));
        if escaped {
        } else if b == 47 {
            let seg = cur;
            cur = Vec::new();
            close_segment_exec(&mut segs, seg, &mut escaped);
            assert(cur@ =~= Seq::<u8>::empty());
        } else {
            cur.push(b);
        }
        i = i + 1;
    }
    assert(tail@.take(tail@.len() as int) =~= tail@);
    close_segment_exec(&mut segs, cur, &mut escaped);
    if escaped {
        Err(InvalidRequestError::OutsideRoot)
    } else {
        Ok(segs)
    }
}

/// Whether `p` is `root` or lies below it.
pub fn within_root(root: &Vec<Vec<u8>>, p: &Vec<Vec<u8>>) -> (r: bool)
    ensures
        r == is_within(segs_view(root@), segs_view(p@)),
{
    let rv = Ghost(segs_view(root@));
    let pv = Ghost(segs_view(p@));
    if root.len() > p.len() {
        return false;
    }
    let mut i: usize = 0;
    while i < root.len()
        invariant
            root@.len() <= p@.len(),
            rv@ == segs_view(root@),
            pv@ == segs_view(p@),
            i <= root@.len(),
            pv@.take(i as int) == rv@.take(i as int),
        decreases root@.len() - i,
    {
        if !bytes_eq(&root[i], &p[i]) {
            assert(pv@.take(root@.len() as int)[i as int] != rv@[i as int]);
            return false;
        }
        assert(pv@.take(i + 1) =~= pv@.take(i as int).push(pv@[i as int]));
        assert(rv@.take(i + 1) =~= rv@.take(i as int).push(rv@[i as int]));
        i = i + 1;
    }
    assert(rv@.take(rv@.len() as int) =~= rv@);
    true
}

/// A directory admitted for archiving: it exists and lies inside the root.
pub struct ArchiveRequest {
    path: Vec<Vec<u8>>,
    root: Ghost<Seq<Seq<u8>>>,
}

impl ArchiveRequest {
    /// The directory's components, from the filesystem's root.
    pub closed spec fn components(&self) -> Seq<Seq<u8>> {
        segs_view(self.path@)
    }

    /// The served root it was checked against.
    pub closed spec fn root(&self) -> Seq<Seq<u8>> {
        self.root@
    }

    pub fn path(&self) -> (r: &Vec<Vec<u8>>)
        ensures
            segs_view(r@) == self.components(),
    {
        &self.path
    }
}

/// Admits the resolved directory `resolved` (`None` where nothing exists at
/// the requested path) when it lies inside `root` and is a directory.
pub fn validate_request(root: &Vec<Vec<u8>>, resolved: Option<Vec<Vec<u8>>>, is_dir: bool) -> (r:
    Result<ArchiveRequest, InvalidRequestError>)
    ensures
        match r {
            Ok(req) => {
                &&& resolved is Some
                &&& is_dir
                &&& req.components() == segs_view(resolved->0@)
                &&& req.root() == segs_view(root@)
                &&& is_within(req.root(), req.components())
            },
            Err(InvalidRequestError::NotFound) => resolved is None,
            Err(InvalidRequestError::OutsideRoot) => resolved is Some && !is_within(
                segs_view(root@),
                segs_view(resolved->0@),
            ),
            Err(InvalidRequestError::NotADirectory) => resolved is Some && is_within(
                segs_view(root@),
                segs_view(resolved->0@),
            ) && !is_dir,
        },
{
    match resolved {
        None => Err(InvalidRequestError::NotFound),
        Some(p) => {
            if !within_root(root, &p) {
                Err(InvalidRequestError::OutsideRoot)
            } else if !is_dir {
                Err(InvalidRequestError::NotADirectory)
            } else {
                Ok(ArchiveRequest { path: p, root: Ghost(segs_view(root@)) })
            }
        },
    }
}

/// Once a reading has climbed above the root, no later byte undoes it.
pub proof fn lemma_escape_sticks(s: Seq<u8>, i: int)
    requires
        0 <= i <= s.len(),
        scan(s.take(i)).escaped,
    ensures
        scan(s).escaped,
        normalize(s).escaped,
    decreases s.len() - i,
{
    if i == s.len() {
        assert(s.take(i) =~= s);
    } else {
        let t = s.drop_last();
        assert(t.take(i) =~= s.take(i));
        lemma_escape_sticks(t, i);
    }
}

/// A tail that starts by climbing out of the root (`..`, or `../` and
/// anything after it) is refused, whatever follows.
pub proof fn law_traversal_rejected(tail: Seq<u8>)
    requires
        tail == seq![46u8, 46u8] || (tail.len() >= 3 && tail.take(3) == seq![46u8, 46u8, 47u8]),
    ensures
        normalize(tail).escaped,
{
    let t1 = seq![46u8];
    let t2 = seq![46u8, 46u8];
    assert(t1.drop_last() =~= Seq::<u8>::empty());
    assert(t1.last() == 46u8);
    let s0 = scan(Seq::<u8>::empty());
    assert(s0.cur.push(46u8) =~= t1);
    let s1 = scan(t1);
    assert(s1.cur == t1 && s1.segs.len() == 0 && !s1.escaped);
    assert(t2.drop_last() =~= t1);
    assert(t2.last() == 46u8);
    assert(t1.push(46u8) =~= t2);
    let st2 = scan(t2);
    assert(st2.cur == t2 && st2.segs.len() == 0 && !st2.escaped);
    if tail == t2 {
    } else {
        let t3 = tail.take(3);
        assert(t3.drop_last() =~= t2);
        assert(t3.last() == 47u8);
        assert(scan(t3).escaped);
        lemma_escape_sticks(tail, 3);
    }
}

} // verus!
