//! The rendering surface the view draws into.
//!
//! The core only writes text and repositions a hardware cursor; it never
//! reads from the surface. A renderer's behaviour is specified as a trace
//! of operations (`RenderOp`): each successful call appends exactly one
//! operation. Implementations live outside the verified library (a raw
//! terminal backend, a recording mock); what is proved about `render`
//! holds for any implementation that honours these contracts.

use vstd::prelude::*;

verus! {

/// An error surfaced by a renderer or by geometry checks around it.
#[derive(Debug, Clone, Copy, PartialEq, Eq, Structural)]
pub enum Error {
    /// An I/O failure in the backend; aborts the current frame.
    Io,
    /// A requested viewport size the backend cannot provide.
    InvalidRendererSize(usize),
    /// A cursor coordinate that does not fit the backend's address space.
    InvalidCursorSize(usize),
}

/// One operation of a renderer trace.
pub enum RenderOp {
    /// Text written at the cursor.
    Write(Seq<char>),
    /// Cursor moved to the first column.
    Ret,
    /// Cursor moved to the first row.
    VRet,
    /// Cursor moved `n` columns right (left if negative).
    MoveX(int),
    /// Cursor moved `n` rows down (up if negative).
    MoveY(int),
}

/// The trace grew from `pre` to `post` by exactly a prefix of `tr`: what
/// an aborted pass leaves behind.
pub open spec fn ops_prefix_of(pre: Seq<RenderOp>, post: Seq<RenderOp>, tr: Seq<RenderOp>) -> bool {
    exists|nn: int| 0 <= nn <= tr.len() && post == pre + #[trigger] tr.take(nn)
}

/// A rendering surface: a viewport of fixed dimensions accepting writes
/// and cursor motion, each fallible with an I/O error. A successful call
/// appends exactly one operation to the trace; a failed call appends
/// nothing.
pub trait Renderer {
    /// The trace of operations performed so far. The default model is
    /// the empty trace; an implementation meant to satisfy the method
    /// contracts below overrides it.
    open spec fn ops(&self) -> Seq<RenderOp> {
        Seq::empty()
    }

    /// The viewport height in rows, as the implementation models it.
    open spec fn spec_height(&self) -> nat {
        0
    }

    /// The viewport width in columns, as the implementation models it.
    open spec fn spec_width(&self) -> nat {
        0
    }

    /// The viewport height in rows.
    fn height(&self) -> (r: usize)
        ensures
            r as nat == self.spec_height(),
    ;

    /// The viewport width in columns.
    fn width(&self) -> (r: usize)
        ensures
            r as nat == self.spec_width(),
    ;

    /// Write the string at the cursor.
    fn write(&mut self, s: &str) -> (res: Result<(), Error>)
        ensures
            final(self).spec_height() == old(self).spec_height(),
            final(self).spec_width() == old(self).spec_width(),
            res is Ok ==> final(self).ops() == old(self).ops().push(RenderOp::Write(s@)),
            res is Err ==> final(self).ops() == old(self).ops(),
    ;

    /// Move the cursor to the first column.
    fn ret(&mut self) -> (res: Result<(), Error>)
        ensures
            final(self).spec_height() == old(self).spec_height(),
            final(self).spec_width() == old(self).spec_width(),
            res is Ok ==> final(self).ops() == old(self).ops().push(RenderOp::Ret),
            res is Err ==> final(self).ops() == old(self).ops(),
    ;

    /// Move the cursor to the first row.
    fn vret(&mut self) -> (res: Result<(), Error>)
        ensures
            final(self).spec_height() == old(self).spec_height(),
            final(self).spec_width() == old(self).spec_width(),
            res is Ok ==> final(self).ops() == old(self).ops().push(RenderOp::VRet),
            res is Err ==> final(self).ops() == old(self).ops(),
    ;

    /// Move the cursor `n` columns right (left if negative).
    fn move_x(&mut self, n: isize) -> (res: Result<(), Error>)
        ensures
            final(self).spec_height() == old(self).spec_height(),
            final(self).spec_width() == old(self).spec_width(),
            res is Ok ==> final(self).ops() == old(self).ops().push(RenderOp::MoveX(n as int)),
            res is Err ==> final(self).ops() == old(self).ops(),
    ;

    /// Move the cursor `n` rows down (up if negative).
    fn move_y(&mut self, n: isize) -> (res: Result<(), Error>)
        ensures
            final(self).spec_height() == old(self).spec_height(),
            final(self).spec_width() == old(self).spec_width(),
            res is Ok ==> final(self).ops() == old(self).ops().push(RenderOp::MoveY(n as int)),
            res is Err ==> final(self).ops() == old(self).ops(),
    ;
}

} // verus!
