use vstd::prelude::*;

verus! {

/// Where a seek is measured from.
#[derive(Clone, Copy, Debug, PartialEq, Eq, Structural)]
pub enum SeekOrigin {
    /// An absolute offset from the first byte.
    Start(u64),
    /// An offset from the end of the file (negative moves back into the file).
    End(i64),
    /// An offset from the handle's current position.
    Current(i64),
}

/// Why a cursor could not be moved.
#[derive(Clone, Copy, Debug, PartialEq, Eq, Structural)]
pub enum CursorError {
    /// An end-relative seek was asked for while the file length is not yet known.
    LengthUnknown,
    /// The resulting position would lie before the first byte.
    BeforeStart,
    /// The resulting position would not fit in a `u64`.
    PastMax,
}

/// The per-handle state of a shared file handle: its own read position and
/// its own cached copy of the file length. Handles that share one file never
/// share this state.
#[derive(Clone, Copy, Debug, PartialEq, Eq, Structural)]
pub struct CursorState {
    pub pos: u64,
    pub length: Option<u64>,
}

/// A position computed in unbounded arithmetic, checked against the range of `u64`.
pub open spec fn checked_position(t: int) -> Result<u64, CursorError> {
    if t < 0 {
        Err(CursorError::BeforeStart)
    } else if t > u64::MAX {
        Err(CursorError::PastMax)
    } else {
        Ok(t as u64)
    }
}

/// The position that a seek from `origin` leads to, for a handle at `pos`
/// whose cached length is `length`.
pub open spec fn seek_target(pos: u64, length: Option<u64>, origin: SeekOrigin) -> Result<
    u64,
    CursorError,
> {
    match origin {
        SeekOrigin::Start(p) => Ok(p),
        SeekOrigin::End(off) => match length {
            Some(len) => checked_position(len + off),
            None => Err(CursorError::LengthUnknown),
        },
        SeekOrigin::Current(off) => checked_position(pos + off),
    }
}

/// Computes the target of a seek without wrapping: a position before the
/// start or past `u64::MAX` is an error.
pub fn resolve_seek(pos: u64, length: Option<u64>, origin: SeekOrigin) -> (r: Result<
    u64,
    CursorError,
>)
    ensures
        r == seek_target(pos, length, origin),
{
    let base: u64;
    let off: i64;
    match origin {
        SeekOrigin::Start(p) => {
            return Ok(p);
        },
        SeekOrigin::End(o) => {
            match length {
                Some(len) => {
                    base = len;
                    off = o;
                },
                None => {
                    return Err(CursorError::LengthUnknown);
                },
            }
        },
        SeekOrigin::Current(o) => {
            base = pos;
            off = o;
        },
    }
    let t: i128 = base as i128 + off as i128;
    if t < 0 {
        Err(CursorError::BeforeStart)
    } else if t > u64::MAX as i128 {
        Err(CursorError::PastMax)
    } else {
        Ok(t as u64)
    }
}

impl CursorState {
    /// A fresh handle state: at the first byte, with no length cached. A
    /// clone of a shared handle starts from this state too.
    pub fn new() -> (r: CursorState)
        ensures
            r.pos == 0,
            r.length == None::<u64>,
    {
        CursorState { pos: 0, length: None }
    }

    /// The handle's read position: where the shared descriptor must be
    /// placed before this handle reads.
    pub fn position(&self) -> (r: u64)
        ensures
            r == self.pos,
    {
        self.pos
    }

    /// The file length cached by this handle, if it has been looked up.
    pub fn cached_length(&self) -> (r: Option<u64>)
        ensures
            r == self.length,
    {
        self.length
    }

    /// The file length for end-relative seeks. The first call caches
    /// `queried` (the answer of a metadata query); later calls keep and
    /// return the cached value.
    pub fn ascertain_length(&mut self, queried: u64) -> (r: u64)
        ensures
            r == match old(self).length {
                Some(len) => len,
                None => queried,
            },
            final(self).length == Some(r),
            final(self).pos == old(self).pos,
    {
        match self.length {
            Some(len) => len,
            None => {
                self.length = Some(queried);
                queried
            },
        }
    }

    /// Whether a seek from `origin` needs the file length first: only an
    /// end-relative seek does, and only while no length is cached.
    pub fn needs_length(&self, origin: SeekOrigin) -> (r: bool)
        ensures
            r == (origin is End && self.length is None),
    {
        match origin {
            SeekOrigin::End(_) => self.length.is_none(),
            _ => false,
        }
    }

    /// Moves this handle's cursor and nothing else. On success the new
    /// position is returned; on failure the state is left as it was.
    pub fn seek(&mut self, origin: SeekOrigin) -> (r: Result<u64, CursorError>)
        ensures
            r == seek_target(old(self).pos, old(self).length, origin),
            final(self).length == old(self).length,
            r matches Ok(p) ==> final(self).pos == p,
            r is Err ==> final(self).pos == old(self).pos,
    {
        let r = resolve_seek(self.pos, self.length, origin);
        if let Ok(p) = r {
            self.pos = p;
        }
        r
    }

    /// Records that a read through this handle returned `n` bytes.
    pub fn advance(&mut self, n: usize) -> (r: Result<u64, CursorError>)
        ensures
            r == checked_position(old(self).pos + n),
            final(self).length == old(self).length,
            r matches Ok(p) ==> final(self).pos == p,
            r is Err ==> final(self).pos == old(self).pos,
    {
        if n as u64 > u64::MAX - self.pos {
            Err(CursorError::PastMax)
        } else {
            self.pos = self.pos + n as u64;
            Ok(self.pos)
        }
    }
}

/// The bytes that one read of at most `n` bytes returns when the file holds
/// `content` and the read starts at `at`.
pub open spec fn bytes_at(content: Seq<u8>, at: int, n: nat) -> Seq<u8> {
    if at >= content.len() {
        Seq::empty()
    } else if at + n <= content.len() {
        content.subrange(at, at + n)
    } else {
        content.subrange(at, content.len() as int)
    }
}

/// One read through handle `c`, taken under the lock while the shared
/// descriptor's pointer stands at `shared`, wherever another handle left it:
/// the pointer is moved to the handle's own position, the read runs, and
/// the handle advances by what was read. Gives the bytes, the descriptor's
/// pointer afterwards, and the handle's state afterwards.
pub open spec fn locked_read(content: Seq<u8>, shared: int, c: CursorState, n: nat) -> (
    Seq<u8>,
    int,
    CursorState,
) {
    let at = c.pos as int;
    let bytes = bytes_at(content, at, n);
    (bytes, at + bytes.len(), CursorState { pos: (at + bytes.len()) as u64, length: c.length })
}

/// Reads through two handles that share one descriptor return, in either
/// order and whatever the descriptor's pointer was, exactly the bytes at
/// each handle's own position, and leave each handle where `advance` would.
pub proof fn lemma_interleaved_reads_independent(
    content: Seq<u8>,
    shared: int,
    a: CursorState,
    b: CursorState,
    na: nat,
    nb: nat,
)
    requires
        content.len() <= u64::MAX,
    ensures
        ({
            let a_first = locked_read(content, shared, a, na);
            let b_second = locked_read(content, a_first.1, b, nb);
            let b_first = locked_read(content, shared, b, nb);
            let a_second = locked_read(content, b_first.1, a, na);
            &&& a_first.0 == bytes_at(content, a.pos as int, na)
            &&& a_second.0 == a_first.0
            &&& b_first.0 == bytes_at(content, b.pos as int, nb)
            &&& b_second.0 == b_first.0
            &&& a_second.2 == a_first.2
            &&& b_second.2 == b_first.2
            &&& checked_position(a.pos + a_first.0.len()) == Ok::<u64, CursorError>(a_first.2.pos)
            &&& checked_position(b.pos + b_first.0.len()) == Ok::<u64, CursorError>(b_first.2.pos)
        }),
{
}

/// A seek `k` bytes back from the end lands where a seek to `length - k`
/// from the start does, so the reads that follow return the same bytes.
pub proof fn lemma_seek_end_matches_start(
    content: Seq<u8>,
    a: CursorState,
    b: CursorState,
    k: i64,
    n: nat,
)
    requires
        content.len() <= u64::MAX,
        a.length == Some(content.len() as u64),
        0 <= k <= content.len(),
    ensures
        seek_target(a.pos, a.length, SeekOrigin::End((-k) as i64)) == Ok::<u64, CursorError>(
            (content.len() - k) as u64,
        ),
        seek_target(b.pos, b.length, SeekOrigin::Start((content.len() - k) as u64)) == Ok::<
            u64,
            CursorError,
        >((content.len() - k) as u64),
        bytes_at(content, content.len() - k, n) == locked_read(
            content,
            0,
            CursorState { pos: (content.len() - k) as u64, length: a.length },
            n,
        ).0,
{
}

/// A seek of zero from the current position leaves the position as it is.
pub proof fn lemma_seek_current_zero(c: CursorState)
    ensures
        seek_target(c.pos, c.length, SeekOrigin::Current(0)) == Ok::<u64, CursorError>(c.pos),
{
}

} // verus!
