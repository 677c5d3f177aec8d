use vstd::prelude::*;

verus! {

pub const SLASH: u8 = 47;

pub const DOT: u8 = 46;

pub const NUL: u8 = 0;

/// Why an entry cannot be written under the output root.
#[derive(Clone, Copy, Debug, PartialEq, Eq, Structural)]
pub enum ExtractError {
    /// The name is absolute, holds a NUL byte, or climbs above the root with `..`.
    UnsafePath,
    /// The name of a file entry resolves to the root itself.
    EmptyPath,
}

/// A path segment that names a child: not empty, not `.` and not `..`.
pub open spec fn is_normal_segment(seg: Seq<u8>) -> bool {
    &&& seg.len() > 0
    &&& seg != seq![DOT]
    &&& seg != seq![DOT, DOT]
    &&& forall|j: int| 0 <= j < seg.len() ==> seg[j] != SLASH && seg[j] != NUL
}

/// Applies one finished segment to the resolved components: empty and `.`
/// segments change nothing, `..` removes the last component and fails when
/// there is none, any other segment is appended.
pub open spec fn close_segment(comps: Seq<Seq<u8>>, seg: Seq<u8>) -> (bool, Seq<Seq<u8>>) {
    if seg.len() == 0 || seg == seq![DOT] {
        (true, comps)
    } else if seg == seq![DOT, DOT] {
        if comps.len() == 0 {
            (false, comps)
        } else {
            (true, comps.drop_last())
        }
    } else {
        (true, comps.push(seg))
    }
}

/// The state after reading the bytes of `name` from left to right: whether
/// the name is still acceptable, the components resolved so far, and the
/// segment being read.
pub open spec fn scan(name: Seq<u8>) -> (bool, Seq<Seq<u8>>, Seq<u8>)
    decreases name.len(),
{
    if name.len() == 0 {
        (true, Seq::empty(), Seq::empty())
    } else {
        let prev = scan(name.drop_last());
        let c = name.last();
        if !prev.0 {
            prev
        } else if c == NUL {
            (false, prev.1, prev.2)
        } else if c == SLASH {
            let closed = close_segment(prev.1, prev.2);
            (closed.0, closed.1, Seq::empty())
        } else {
            (true, prev.1, prev.2.push(c))
        }
    }
}

/// The components of the path that `name` denotes below the output root,
/// or `None` where the name is absolute, holds a NUL byte, or leaves the
/// root through `..`.
pub open spec fn enclosed_spec(name: Seq<u8>) -> Option<Seq<Seq<u8>>> {
    if name.len() > 0 && name[0] == SLASH {
        None
    } else {
        let s = scan(name);
        let closed = close_segment(s.1, s.2);
        if s.0 && closed.0 {
            Some(closed.1)
        } else {
            None
        }
    }
}

/// What is to be done with one entry: `None` for a directory marker, which
/// produces no output, or the components of the file to write.
pub open spec fn entry_plan(name: Seq<u8>, is_dir: bool) -> Result<
    Option<Seq<Seq<u8>>>,
    ExtractError,
> {
    if is_dir {
        Ok(None)
    } else {
        match enclosed_spec(name) {
            None => Err(ExtractError::UnsafePath),
            Some(comps) => if comps.len() == 0 {
                Err(ExtractError::EmptyPath)
            } else {
                Ok(Some(comps))
            },
        }
    }
}

/// Resolves an entry name, read as `/`-separated segments, to the
/// components of a path confined to the output root.
pub fn enclosed_components(name: &[u8]) -> (r: Option<Vec<Vec<u8>>>)
    ensures
        r matches Some(v) ==> enclosed_spec(name@) == Some(v.deep_view()),
        r is None ==> enclosed_spec(name@) is None,
{
    if name.len() > 0 && name[0] == SLASH {
        return None;
    }
    let mut ok: bool = true;
    let mut comps: Vec<Vec<u8>> = Vec::new();
    let mut cur: Vec<u8> = Vec::new();
    let mut i: usize = 0;
    while i < name.len()
        invariant
            0 <= i <= name.len(),
            scan(name@.take(i as int)) == (ok, comps.deep_view(), cur@),
        decreases name.len() - i,
    {
        let c = name[i];
        assert(name@.take(i + 1).drop_last() == name@.take(i as int));
        if !ok {
        } else if c == NUL {
            ok = false;
        } else if c == SLASH {
            ok = close_segment_exec(&mut comps, cur);
            cur = Vec::new();
            assert(cur@ =~= Seq::<u8>::empty());
        } else {
            cur.push(c);
        }
        i = i + 1;
    }
    assert(name@.take(name.len() as int) =~= name@);
    let last_ok = close_segment_exec(&mut comps, cur);
    if ok && last_ok {
        Some(comps)
    } else {
        None
    }
}

fn close_segment_exec(comps: &mut Vec<Vec<u8>>, seg: Vec<u8>) -> (r: bool)
    ensures
        (r, final(comps).deep_view()) == close_segment(old(comps).deep_view(), seg@),
{
    let is_dot = seg.len() == 1 && seg[0] == DOT;
    let is_dot_dot = seg.len() == 2 && seg[0] == DOT && seg[1] == DOT;
    assert(is_dot == (seg@ == seq![DOT])) by {
        if seg@ == seq![DOT] {
            assert(seg@[0] == seq![DOT][0]);
        }
        if is_dot {
            assert(seg@ =~= seq![DOT]);
        }
    }
    assert(is_dot_dot == (seg@ == seq![DOT, DOT])) by {
        if seg@ == seq![DOT, DOT] {
            assert(seg@[0] == seq![DOT, DOT][0]);
            assert(seg@[1] == seq![DOT, DOT][1]);
        }
        if is_dot_dot {
            assert(seg@ =~= seq![DOT, DOT]);
        }
    }
    if seg.len() == 0 || is_dot {
        true
    } else if is_dot_dot {
        if comps.len() == 0 {
            false
        } else {
            let ghost before = comps.deep_view();
            comps.pop();
            assert(comps.deep_view() =~= before.drop_last());
            true
        }
    } else {
        let ghost before = comps.deep_view();
        assert(seg.deep_view() =~= seg@);
        comps.push(seg);
        assert(comps.deep_view() =~= before.push(seg@));
        true
    }
}

/// Decides what one entry becomes: a directory marker is skipped, a file
/// entry is written at its enclosed path, and an entry whose name escapes
/// the output root, or resolves to the root itself, is refused.
pub fn plan_entry(name: &[u8], is_dir: bool) -> (r: Result<Option<Vec<Vec<u8>>>, ExtractError>)
    ensures
        r matches Ok(Some(v)) ==> entry_plan(name@, is_dir) == Ok::<
            Option<Seq<Seq<u8>>>,
            ExtractError,
        >(Some(v.deep_view())),
        r matches Ok(None) ==> entry_plan(name@, is_dir) == Ok::<
            Option<Seq<Seq<u8>>>,
            ExtractError,
        >(None),
        r matches Err(e) ==> entry_plan(name@, is_dir) == Err::<Option<Seq<Seq<u8>>>, ExtractError>(
            e,
        ),
{
    if is_dir {
        return Ok(None);
    }
    match enclosed_components(name) {
        None => Err(ExtractError::UnsafePath),
        Some(comps) => if comps.len() == 0 {
            Err(ExtractError::EmptyPath)
        } else {
            Ok(Some(comps))
        },
    }
}

proof fn lemma_scan_segments(name: Seq<u8>)
    ensures
        forall|i: int| 0 <= i < scan(name).1.len() ==> is_normal_segment(#[trigger] scan(name).1[i]),
        forall|j: int|
            0 <= j < scan(name).2.len() ==> #[trigger] scan(name).2[j] != SLASH && scan(name).2[j]
                != NUL,
    decreases name.len(),
{
    if name.len() > 0 {
        let prev = scan(name.drop_last());
        lemma_scan_segments(name.drop_last());
        if prev.0 && name.last() == SLASH {
            lemma_close_keeps_segments(prev.1, prev.2);
        } else if prev.0 && name.last() != NUL {
            assert(forall|j: int| 0 <= j < prev.2.len() ==> prev.2.push(name.last())[j] == prev.2[j]);
        }
    }
}

proof fn lemma_close_keeps_segments(comps: Seq<Seq<u8>>, seg: Seq<u8>)
    requires
        forall|i: int| 0 <= i < comps.len() ==> is_normal_segment(#[trigger] comps[i]),
        forall|j: int| 0 <= j < seg.len() ==> #[trigger] seg[j] != SLASH && seg[j] != NUL,
    ensures
        forall|i: int|
            0 <= i < close_segment(comps, seg).1.len() ==> is_normal_segment(
                #[trigger] close_segment(comps, seg).1[i],
            ),
{
    let out = close_segment(comps, seg).1;
    assert forall|i: int| 0 <= i < out.len() implies is_normal_segment(#[trigger] out[i]) by {
        if i < comps.len() {
            assert(out[i] == comps[i]);
        } else {
            assert(out[i] == seg);
        }
    }
}

/// Every component of an enclosed path names a child: none is empty, `.`
/// or `..`, and none holds a separator or a NUL byte. Joined below a root,
/// such components never leave it.
pub proof fn lemma_enclosed_stays_below_root(name: Seq<u8>)
    ensures
        enclosed_spec(name) matches Some(comps) ==> forall|i: int|
            0 <= i < comps.len() ==> is_normal_segment(#[trigger] comps[i]),
{
    let s = scan(name);
    lemma_scan_segments(name);
    lemma_close_keeps_segments(s.1, s.2);
}

proof fn lemma_scan_failure_sticks(p: Seq<u8>, rest: Seq<u8>)
    requires
        !scan(p).0,
    ensures
        !scan(p + rest).0,
    decreases rest.len(),
{
    if rest.len() == 0 {
        assert(p + rest =~= p);
    } else {
        assert((p + rest).drop_last() =~= p + rest.drop_last());
        lemma_scan_failure_sticks(p, rest.drop_last());
    }
}

/// Once a name has climbed above the root (its scan has failed), no
/// continuation of it is accepted: the file entry is refused.
pub proof fn lemma_escape_rejected(p: Seq<u8>, rest: Seq<u8>)
    requires
        !scan(p).0,
    ensures
        entry_plan(p + rest, false) == Err::<Option<Seq<Seq<u8>>>, ExtractError>(
            ExtractError::UnsafePath,
        ),
{
    lemma_scan_failure_sticks(p, rest);
}

/// A name that starts with `../` climbs above the root, so a file entry
/// named so is refused whatever follows.
pub proof fn lemma_leading_parent_rejected(rest: Seq<u8>)
    ensures
        entry_plan(seq![DOT, DOT, SLASH] + rest, false) == Err::<
            Option<Seq<Seq<u8>>>,
            ExtractError,
        >(ExtractError::UnsafePath),
{
    let p = seq![DOT, DOT, SLASH];
    assert(p.drop_last() =~= seq![DOT, DOT]);
    assert(seq![DOT, DOT].drop_last() =~= seq![DOT]);
    assert(seq![DOT].drop_last() =~= Seq::<u8>::empty());
    let e = Seq::<u8>::empty();
    assert(scan(e) == (true, Seq::<Seq<u8>>::empty(), e));
    assert(seq![DOT].last() == DOT);
    assert(e.push(DOT) =~= seq![DOT]);
    assert(scan(seq![DOT]) == (true, Seq::<Seq<u8>>::empty(), seq![DOT]));
    assert(seq![DOT, DOT].last() == DOT);
    assert(seq![DOT].push(DOT) =~= seq![DOT, DOT]);
    assert(scan(seq![DOT, DOT]) == (true, Seq::<Seq<u8>>::empty(), seq![DOT, DOT]));
    assert(p.last() == SLASH);
    assert(!scan(p).0);
    lemma_escape_rejected(p, rest);
}

} // verus!
