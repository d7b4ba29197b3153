use editor::{Buffer, Error, LineConfig, Renderer, View};

#[derive(Debug, PartialEq, Eq, Clone)]
enum Op {
    Write(String),
    Ret,
    VRet,
    MoveX(isize),
    MoveY(isize),
}

/// A recording surface: remembers every operation, and can be told to
/// fail a given call with a given error.
struct Rec {
    h: usize,
    w: usize,
    ops: Vec<Op>,
    fail_at: Option<usize>,
    fail_with: Error,
    calls: usize,
}

impl Rec {
    fn new(h: usize, w: usize) -> Rec {
        Rec { h, w, ops: Vec::new(), fail_at: None, fail_with: Error::Io, calls: 0 }
    }

    fn step(&mut self, op: Op) -> Result<(), Error> {
        if self.fail_at == Some(self.calls) {
            return Err(self.fail_with);
        }
        self.calls += 1;
        self.ops.push(op);
        Ok(())
    }
}

impl Renderer for Rec {
    fn height(&self) -> usize {
        self.h
    }

    fn width(&self) -> usize {
        self.w
    }

    fn write(&mut self, s: &str) -> Result<(), Error> {
        let owned = s.to_string();
        self.step(Op::Write(owned))
    }

    fn ret(&mut self) -> Result<(), Error> {
        self.step(Op::Ret)
    }

    fn vret(&mut self) -> Result<(), Error> {
        self.step(Op::VRet)
    }

    fn move_x(&mut self, n: isize) -> Result<(), Error> {
        self.step(Op::MoveX(n))
    }

    fn move_y(&mut self, n: isize) -> Result<(), Error> {
        self.step(Op::MoveY(n))
    }
}

fn cfg() -> LineConfig {
    LineConfig { tab_width: 8 }
}

/// Replay a trace, returning (row, line) pairs for each write and the
/// final (row, column) of the cursor. Rows start at zero.
fn replay(ops: &[Op]) -> (Vec<(isize, String)>, (isize, isize)) {
    let mut row: isize = 0;
    let mut col: isize = 0;
    let mut writes = Vec::new();
    for op in ops {
        match op {
            Op::Write(s) => {
                writes.push((row, s.clone()));
            }
            Op::Ret => col = 0,
            Op::VRet => row = 0,
            Op::MoveX(n) => col += n,
            Op::MoveY(n) => row += n,
        }
    }
    (writes, (row, col))
}

#[test]
fn render_two_lines_height_four() {
    // two-line buffer, viewport height 4, cursor at line 0 column 0:
    // line 0 lands on row 2, line 1 on row 3, nothing above, and the
    // hardware cursor ends on row 2 column 0
    let v = View::new(Buffer::from_text("hello\nworld", cfg()));
    let mut r = Rec::new(4, 80);
    v.render(&mut r).unwrap();
    assert_eq!(
        r.ops,
        vec![
            Op::MoveY(2),
            Op::Write("hello".to_string()),
            Op::Ret,
            Op::MoveY(-1),
            Op::MoveY(2),
            Op::Write("world".to_string()),
            Op::Ret,
            Op::MoveY(1),
            Op::MoveY(-2),
            Op::Ret,
            Op::MoveX(0),
        ]
    );
    let (writes, cursor) = replay(&r.ops);
    assert_eq!(writes, vec![(2, "hello".to_string()), (3, "world".to_string())]);
    assert_eq!(cursor, (2, 0));
}

#[test]
fn render_middle_line_shows_neighbours() {
    let mut v = View::new(Buffer::from_text("a\nb\nc", cfg()));
    v.scroll_rel(1);
    let mut r = Rec::new(4, 80);
    v.render(&mut r).unwrap();
    let (writes, cursor) = replay(&r.ops);
    assert_eq!(
        writes,
        vec![(2, "b".to_string()), (1, "a".to_string()), (3, "c".to_string())]
    );
    assert_eq!(cursor, (2, 0));
}

#[test]
fn render_clamps_cursor_to_line_width() {
    let mut v = View::new(Buffer::from_text("ab\nlonger", cfg()));
    v.scroll_rel(1);
    v.last_col();
    v.scroll_rel(-1);
    assert_eq!(v.cursor(), (6, 0));
    let mut r = Rec::new(1, 80);
    v.render(&mut r).unwrap();
    let (_, cursor) = replay(&r.ops);
    assert_eq!(cursor, (0, 2));
}

#[test]
fn render_zero_height_writes_nothing() {
    let v = View::new(Buffer::from_text("hello", cfg()));
    let mut r = Rec::new(0, 80);
    v.render(&mut r).unwrap();
    let (writes, cursor) = replay(&r.ops);
    assert_eq!(writes, vec![]);
    assert_eq!(cursor, (0, 0));
}

#[test]
fn render_propagates_io_error_unchanged() {
    let v = View::new(Buffer::from_text("hello\nworld", cfg()));
    let mut r = Rec::new(4, 80);
    r.fail_at = Some(1);
    r.fail_with = Error::Io;
    assert_eq!(v.render(&mut r), Err(Error::Io));
}

#[test]
fn render_failure_leaves_prefix_of_trace() {
    // the operations performed before a failure are exactly a prefix of
    // the full trace, and nothing follows the failing call
    let v = View::new(Buffer::from_text("hello\nworld", cfg()));
    let mut full = Rec::new(4, 80);
    v.render(&mut full).unwrap();
    for fail_at in 0..full.ops.len() {
        let mut r = Rec::new(4, 80);
        r.fail_at = Some(fail_at);
        assert_eq!(v.render(&mut r), Err(Error::Io));
        assert_eq!(r.ops, full.ops[..fail_at].to_vec());
    }
}

#[test]
fn render_propagates_cursor_error_unchanged() {
    let v = View::new(Buffer::from_text("x", cfg()));
    let mut r = Rec::new(4, 80);
    r.fail_at = Some(0);
    r.fail_with = Error::InvalidCursorSize(7);
    assert_eq!(v.render(&mut r), Err(Error::InvalidCursorSize(7)));
    assert_ne!(Error::InvalidCursorSize(7), Error::InvalidRendererSize(7));
}
