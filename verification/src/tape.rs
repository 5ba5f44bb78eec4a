//! The doubly-infinite tape of the machine: a movable read/write head over a
//! sequence of symbol cells, all blank except a finite written region.
//!
//! The tape is held as three parts: the cells strictly left of the head
//! (leftmost first), the cell under the head, and the cells strictly right of
//! the head (nearest to the head first).  Moving past the known extent
//! materializes a fresh blank cell, so the head can never run off the tape.

use vstd::prelude::*;

verus! {

/// The blank symbol: the content of every cell never explicitly written.
pub const BLANK: char = ' ';

/// The placeholder shown for blank-like cells in the rendered tape.
pub const BLANK_DISPLAY: char = '_';

/// True of every character that counts as blank-like for rendering:
/// the characters of the Unicode `White_Space` set.
pub open spec fn is_blank_like(c: char) -> bool {
    ||| c == '\u{0009}'
    ||| c == '\u{000A}'
    ||| c == '\u{000B}'
    ||| c == '\u{000C}'
    ||| c == '\u{000D}'
    ||| c == '\u{0020}'
    ||| c == '\u{0085}'
    ||| c == '\u{00A0}'
    ||| c == '\u{1680}'
    ||| c == '\u{2000}'
    ||| c == '\u{2001}'
    ||| c == '\u{2002}'
    ||| c == '\u{2003}'
    ||| c == '\u{2004}'
    ||| c == '\u{2005}'
    ||| c == '\u{2006}'
    ||| c == '\u{2007}'
    ||| c == '\u{2008}'
    ||| c == '\u{2009}'
    ||| c == '\u{200A}'
    ||| c == '\u{2028}'
    ||| c == '\u{2029}'
    ||| c == '\u{202F}'
    ||| c == '\u{205F}'
    ||| c == '\u{3000}'
}

/// Decides whether a character is blank-like for rendering.
pub fn blank_like(c: char) -> (r: bool)
    ensures
        r == is_blank_like(c),
{
    c == '\u{0009}' || c == '\u{000A}' || c == '\u{000B}' || c == '\u{000C}' || c == '\u{000D}'
        || c == '\u{0020}' || c == '\u{0085}' || c == '\u{00A0}' || c == '\u{1680}'
        || c == '\u{2000}' || c == '\u{2001}' || c == '\u{2002}' || c == '\u{2003}'
        || c == '\u{2004}' || c == '\u{2005}' || c == '\u{2006}' || c == '\u{2007}'
        || c == '\u{2008}' || c == '\u{2009}' || c == '\u{200A}' || c == '\u{2028}'
        || c == '\u{2029}' || c == '\u{202F}' || c == '\u{205F}' || c == '\u{3000}'
}

/// How one symbol is shown in the rendered tape: blank-like cells appear as
/// the fixed placeholder, every other symbol as itself.
pub open spec fn display_char(c: char) -> char {
    if is_blank_like(c) {
        BLANK_DISPLAY
    } else {
        c
    }
}

/// The mathematical value of a tape: the written cells strictly left of the
/// head (leftmost first), the cell under the head, and the written cells
/// strictly right of the head (nearest to the head first).
#[verifier::ext_equal]
pub ghost struct TapeView {
    pub left: Seq<char>,
    pub current: char,
    pub right: Seq<char>,
}

impl TapeView {
    /// The tape as first materialized: one blank cell under the head.
    pub open spec fn empty() -> TapeView {
        TapeView { left: Seq::empty(), current: BLANK, right: Seq::empty() }
    }

    /// The tape after the head moves one cell to the left.  The old current
    /// cell joins the right-hand side; the nearest left cell, or a fresh
    /// blank when none was ever written, comes under the head.
    pub open spec fn shifted_left(self) -> TapeView {
        TapeView {
            left: if self.left.len() > 0 {
                self.left.drop_last()
            } else {
                Seq::empty()
            },
            current: if self.left.len() > 0 {
                self.left.last()
            } else {
                BLANK
            },
            right: seq![self.current] + self.right,
        }
    }

    /// The tape after the head moves one cell to the right, symmetric to
    /// `shifted_left`.
    pub open spec fn shifted_right(self) -> TapeView {
        TapeView {
            left: self.left + seq![self.current],
            current: if self.right.len() > 0 {
                self.right[0]
            } else {
                BLANK
            },
            right: if self.right.len() > 0 {
                self.right.drop_first()
            } else {
                Seq::empty()
            },
        }
    }

    /// The tape after `val` is written to the cell under the head.
    pub open spec fn written(self, val: char) -> TapeView {
        TapeView { left: self.left, current: val, right: self.right }
    }

    /// The whole written extent, leftmost cell first, head cell included.
    pub open spec fn cells(self) -> Seq<char> {
        self.left + seq![self.current] + self.right
    }

    /// The rendered tape: the written extent with every blank-like symbol
    /// shown as the placeholder character.
    pub open spec fn rendered(self) -> Seq<char> {
        self.cells().map_values(|c: char| display_char(c))
    }

    /// The marker line that aligns a caret under the head cell.
    pub open spec fn head_marker(self) -> Seq<char> {
        Seq::new(self.left.len(), |i: int| ' ') + seq!['^'] + Seq::new(
            self.right.len(),
            |i: int| ' ',
        )
    }
}

/// A tape with a movable head.  `left` holds the cells strictly left of the
/// head, leftmost first; `right` holds the cells strictly right of the head,
/// nearest to the head first.
pub struct Tape {
    left: Vec<char>,
    current: char,
    right: Vec<char>,
}

impl View for Tape {
    type V = TapeView;

    closed spec fn view(&self) -> TapeView {
        TapeView { left: self.left@, current: self.current, right: self.right@ }
    }
}

impl Tape {
    /// A fresh tape: no written cells, the head on a single blank cell.
    pub fn new() -> (t: Tape)
        ensures
            t@ == TapeView::empty(),
    {
        let t = Tape { left: Vec::new(), current: BLANK, right: Vec::new() };
        proof {
            assert(t@ =~= TapeView::empty());
        }
        t
    }

    /// Moves the head one cell to the left, materializing a blank cell when
    /// no written cell lies in that direction.
    pub fn shift_left(&mut self)
        ensures
            final(self)@ == old(self)@.shifted_left(),
    {
        let new_current = match self.left.pop() {
            Some(c) => c,
            None => BLANK,
        };
        self.right.insert(0, self.current);
        self.current = new_current;
        proof {
            assert(self@ =~= old(self)@.shifted_left());
        }
    }

    /// Moves the head one cell to the right, materializing a blank cell when
    /// no written cell lies in that direction.
    pub fn shift_right(&mut self)
        ensures
            final(self)@ == old(self)@.shifted_right(),
    {
        let new_current = if self.right.len() > 0 {
            self.right.remove(0)
        } else {
            BLANK
        };
        self.left.push(self.current);
        self.current = new_current;
        proof {
            assert(self@ =~= old(self)@.shifted_right());
        }
    }

    /// Reads the symbol under the head.
    pub fn get_current(&mut self) -> (c: char)
        ensures
            *final (self) == *old(self),
            c == old(self)@.current,
    {
        self.current
    }

    /// Writes `val` to the cell under the head.
    pub fn set_current(&mut self, val: char)
        ensures
            final (self)@ == old(self)@.written(val),
    {
        self.current = val;
        proof {
            assert(self@ =~= old(self)@.written(val));
        }
    }

    /// Renders the written extent of the tape, leftmost cell to rightmost
    /// cell, with every blank-like symbol shown as the placeholder.
    pub fn to_string(&self) -> (s: String)
        ensures
            s@ == self@.rendered(),
    {
        let mut out = String::new();
        let mut i: usize = 0;
        while i < self.left.len()
            invariant
                i <= self.left@.len(),
                out@ == self.left@.take(i as int).map_values(|c: char| display_char(c)),
            decreases self.left@.len() - i,
        {
            let c = self.left[i];
            push_shown(&mut out, c);
            i = i + 1;
            proof {
                assert(self.left@.take(i as int).drop_last() =~= self.left@.take(i - 1));
                assert(out@ =~= self.left@.take(i as int).map_values(
                    |c: char| display_char(c),
                ));
            }
        }
        push_shown(&mut out, self.current);
        proof {
            assert(self.left@.take(self.left@.len() as int) =~= self.left@);
            assert(out@ =~= (self.left@ + seq![self.current]).map_values(
                |c: char| display_char(c),
            ));
        }
        let ghost head_part = self.left@ + seq![self.current];
        let mut j: usize = 0;
        while j < self.right.len()
            invariant
                j <= self.right@.len(),
                head_part == self.left@ + seq![self.current],
                out@ == (head_part + self.right@.take(j as int)).map_values(
                    |c: char| display_char(c),
                ),
            decreases self.right@.len() - j,
        {
            let c = self.right[j];
            push_shown(&mut out, c);
            j = j + 1;
            proof {
                assert((head_part + self.right@.take(j as int)).drop_last() =~= head_part
                    + self.right@.take(j - 1));
                assert(out@ =~= (head_part + self.right@.take(j as int)).map_values(
                    |c: char| display_char(c),
                ));
            }
        }
        proof {
            assert(self.right@.take(self.right@.len() as int) =~= self.right@);
            assert(head_part + self.right@ =~= self@.cells());
        }
        out
    }

    /// Builds the marker line whose caret stands under the head's position in
    /// the rendered tape: one space per cell left of the head, a caret, one
    /// space per cell right of it.
    pub fn head_marker(&self) -> (s: String)
        ensures
            s@ == self@.head_marker(),
    {
        let mut out = String::new();
        let mut i: usize = 0;
        while i < self.left.len()
            invariant
                i <= self.left@.len(),
                out@ == Seq::new(i as nat, |k: int| ' '),
            decreases self.left@.len() - i,
        {
            push_char(&mut out, ' ');
            i = i + 1;
            proof {
                assert(out@ =~= Seq::new(i as nat, |k: int| ' '));
            }
        }
        push_char(&mut out, '^');
        let ghost prefix = Seq::new(self.left@.len(), |k: int| ' ') + seq!['^'];
        proof {
            assert(out@ =~= prefix);
        }
        let mut j: usize = 0;
        while j < self.right.len()
            invariant
                j <= self.right@.len(),
                prefix == Seq::new(self.left@.len(), |k: int| ' ') + seq!['^'],
                out@ == prefix + Seq::new(j as nat, |k: int| ' '),
            decreases self.right@.len() - j,
        {
            push_char(&mut out, ' ');
            j = j + 1;
            proof {
                assert(out@ =~= prefix + Seq::new(j as nat, |k: int| ' '));
            }
        }
        proof {
            assert(out@ =~= self@.head_marker());
        }
        out
    }
}

impl Default for Tape {
    /// Same as `Tape::new`.
    fn default() -> (t: Tape)
        ensures
            t@ == TapeView::empty(),
    {
        Tape::new()
    }
}

/// Relies on `String::push`: appends the given character to the end of the
/// string.
#[verifier::external_body]
fn push_char(s: &mut String, c: char)
    ensures
        final (s)@ == old(s)@.push(c),
{
    s.push(c)
}

/// Appends the display form of one symbol to the rendered text.
fn push_shown(s: &mut String, c: char)
    ensures
        final (s)@ == old(s)@.push(display_char(c)),
{
    if blank_like(c) {
        push_char(s, BLANK_DISPLAY);
    } else {
        push_char(s, c);
    }
}


/// The tape after the head moves `n` cells to the left, one cell at a time.
pub open spec fn shifted_left_n(t: TapeView, n: nat) -> TapeView
    decreases n,
{
    if n == 0 {
        t
    } else {
        shifted_left_n(t, (n - 1) as nat).shifted_left()
    }
}

/// The tape after the head moves `n` cells to the right, one cell at a time.
pub open spec fn shifted_right_n(t: TapeView, n: nat) -> TapeView
    decreases n,
{
    if n == 0 {
        t
    } else {
        shifted_right_n(t, (n - 1) as nat).shifted_right()
    }
}

/// A sequence of `k` blank cells.
pub open spec fn blanks(k: nat) -> Seq<char> {
    Seq::new(k, |i: int| BLANK)
}

/// True when `u` is `t` with `k` blank cells materialized at the far left
/// edge: the head cell and everything else agree.
pub open spec fn pads_left(u: TapeView, t: TapeView, k: nat) -> bool {
    &&& u.left == blanks(k) + t.left
    &&& u.current == t.current
    &&& u.right == t.right
}

/// True when `u` is `t` with `k` blank cells materialized at the far right
/// edge: the head cell and everything else agree.
pub open spec fn pads_right(u: TapeView, t: TapeView, k: nat) -> bool {
    &&& u.left == t.left
    &&& u.current == t.current
    &&& u.right == t.right + blanks(k)
}

/// Blank padding at the far left edge survives a move to the right.
proof fn lemma_pad_left_shift_right(u: TapeView, t: TapeView, k: nat)
    requires
        pads_left(u, t, k),
    ensures
        pads_left(u.shifted_right(), t.shifted_right(), k),
{
    assert(u.shifted_right().left =~= blanks(k) + t.shifted_right().left);
}

/// Blank padding at the far right edge survives a move to the left.
proof fn lemma_pad_right_shift_left(u: TapeView, t: TapeView, k: nat)
    requires
        pads_right(u, t, k),
    ensures
        pads_right(u.shifted_left(), t.shifted_left(), k),
{
    if t.right.len() > 0 {
        assert((t.right + blanks(k))[0] == t.right[0]);
        assert(u.shifted_left().right =~= t.shifted_left().right + blanks(k));
    } else if k > 0 {
        assert((t.right + blanks(k))[0] == BLANK);
        assert(u.shifted_left().right =~= (seq![t.current] + Seq::<char>::empty()) + blanks(k));
        assert(u.shifted_left().right =~= t.shifted_left().right + blanks(k));
    } else {
        assert(u.right =~= t.right);
        assert(u.shifted_left().right =~= t.shifted_left().right + blanks(0));
    }
}

/// Blank padding at the far left edge survives any number of moves right.
proof fn lemma_pad_left_shift_right_n(u: TapeView, t: TapeView, k: nat, n: nat)
    requires
        pads_left(u, t, k),
    ensures
        pads_left(shifted_right_n(u, n), shifted_right_n(t, n), k),
    decreases n,
{
    if n > 0 {
        lemma_pad_left_shift_right_n(u, t, k, (n - 1) as nat);
        lemma_pad_left_shift_right(shifted_right_n(u, (n - 1) as nat), shifted_right_n(t, (n - 1) as nat), k);
    }
}

/// Blank padding at the far right edge survives any number of moves left.
proof fn lemma_pad_right_shift_left_n(u: TapeView, t: TapeView, k: nat, n: nat)
    requires
        pads_right(u, t, k),
    ensures
        pads_right(shifted_left_n(u, n), shifted_left_n(t, n), k),
    decreases n,
{
    if n > 0 {
        lemma_pad_right_shift_left_n(u, t, k, (n - 1) as nat);
        lemma_pad_right_shift_left(shifted_left_n(u, (n - 1) as nat), shifted_left_n(t, (n - 1) as nat), k);
    }
}

/// Iterated moves commute with one more of the same move on the inside.
proof fn lemma_shifted_right_n_inner(u: TapeView, n: nat)
    ensures
        shifted_right_n(u.shifted_right(), n) == shifted_right_n(u, n + 1),
    decreases n,
{
    assert(shifted_right_n(u, n + 1) == shifted_right_n(u, n).shifted_right());
    if n > 0 {
        lemma_shifted_right_n_inner(u, (n - 1) as nat);
        assert(shifted_right_n(u.shifted_right(), n) == shifted_right_n(
            u.shifted_right(),
            (n - 1) as nat,
        ).shifted_right());
    }
}

/// Iterated moves commute with one more of the same move on the inside.
proof fn lemma_shifted_left_n_inner(u: TapeView, n: nat)
    ensures
        shifted_left_n(u.shifted_left(), n) == shifted_left_n(u, n + 1),
    decreases n,
{
    assert(shifted_left_n(u, n + 1) == shifted_left_n(u, n).shifted_left());
    if n > 0 {
        lemma_shifted_left_n_inner(u, (n - 1) as nat);
        assert(shifted_left_n(u.shifted_left(), n) == shifted_left_n(
            u.shifted_left(),
            (n - 1) as nat,
        ).shifted_left());
    }
}

/// One move left undone by one move right leaves the tape as it was, but for
/// at most one blank cell materialized at the far left edge.
proof fn lemma_left_right_once(t: TapeView)
    ensures
        t.left.len() > 0 ==> pads_left(t.shifted_left().shifted_right(), t, 0),
        t.left.len() == 0 ==> pads_left(t.shifted_left().shifted_right(), t, 1),
{
    if t.left.len() > 0 {
        assert(t.shifted_left().shifted_right().left =~= blanks(0) + t.left);
        assert(t.shifted_left().shifted_right().right =~= t.right);
    } else {
        assert(t.shifted_left().shifted_right().left =~= blanks(1) + t.left);
        assert(t.shifted_left().shifted_right().right =~= t.right);
    }
}

/// One move right undone by one move left leaves the tape as it was, but for
/// at most one blank cell materialized at the far right edge.
proof fn lemma_right_left_once(t: TapeView)
    ensures
        t.right.len() > 0 ==> pads_right(t.shifted_right().shifted_left(), t, 0),
        t.right.len() == 0 ==> pads_right(t.shifted_right().shifted_left(), t, 1),
{
    if t.right.len() > 0 {
        assert(t.shifted_right().shifted_left().left =~= t.left);
        assert(t.shifted_right().shifted_left().right =~= t.right + blanks(0));
    } else {
        assert(t.shifted_right().shifted_left().left =~= t.left);
        assert(t.shifted_right().shifted_left().right =~= t.right + blanks(1));
    }
}

/// Moving the head `n` cells to the left and then `n` cells back to the
/// right never loses written cells: the head reads the same symbol again and
/// every cell agrees, but for blank cells materialized at the far left edge.
pub proof fn lemma_left_round_trip(t: TapeView, n: nat)
    ensures
        exists|k: nat| #[trigger] pads_left(shifted_right_n(shifted_left_n(t, n), n), t, k),
    decreases n,
{
    if n == 0 {
        assert(blanks(0) + t.left =~= t.left);
        assert(pads_left(shifted_right_n(shifted_left_n(t, 0), 0), t, 0));
    } else {
        lemma_left_round_trip(t, (n - 1) as nat);
        let k1 = choose|k: nat|
            #[trigger] pads_left(
                shifted_right_n(shifted_left_n(t, (n - 1) as nat), (n - 1) as nat),
                t,
                k,
            );
        let y = shifted_left_n(t, (n - 1) as nat);
        lemma_left_right_once(y);
        let j: nat = if y.left.len() > 0 {
            0
        } else {
            1
        };
        lemma_pad_left_shift_right_n(y.shifted_left().shifted_right(), y, j, (n - 1) as nat);
        lemma_shifted_right_n_inner(y.shifted_left(), (n - 1) as nat);
        let u = shifted_right_n(shifted_left_n(t, n), n);
        assert(u == shifted_right_n(y.shifted_left().shifted_right(), (n - 1) as nat));
        assert(pads_left(u, shifted_right_n(y, (n - 1) as nat), j));
        assert(u.left =~= blanks(j + k1) + t.left) by {
            assert(u.left =~= blanks(j) + (blanks(k1) + t.left));
        }
        assert(pads_left(u, t, j + k1));
    }
}

/// Moving the head `n` cells to the right and then `n` cells back to the
/// left never loses written cells: the head reads the same symbol again and
/// every cell agrees, but for blank cells materialized at the far right edge.
pub proof fn lemma_right_round_trip(t: TapeView, n: nat)
    ensures
        exists|k: nat| #[trigger] pads_right(shifted_left_n(shifted_right_n(t, n), n), t, k),
    decreases n,
{
    if n == 0 {
        assert(t.right + blanks(0) =~= t.right);
        assert(pads_right(shifted_left_n(shifted_right_n(t, 0), 0), t, 0));
    } else {
        lemma_right_round_trip(t, (n - 1) as nat);
        let k1 = choose|k: nat|
            #[trigger] pads_right(
                shifted_left_n(shifted_right_n(t, (n - 1) as nat), (n - 1) as nat),
                t,
                k,
            );
        let y = shifted_right_n(t, (n - 1) as nat);
        lemma_right_left_once(y);
        let j: nat = if y.right.len() > 0 {
            0
        } else {
            1
        };
        lemma_pad_right_shift_left_n(y.shifted_right().shifted_left(), y, j, (n - 1) as nat);
        lemma_shifted_left_n_inner(y.shifted_right(), (n - 1) as nat);
        let u = shifted_left_n(shifted_right_n(t, n), n);
        assert(u == shifted_left_n(y.shifted_right().shifted_left(), (n - 1) as nat));
        assert(pads_right(u, shifted_left_n(y, (n - 1) as nat), j));
        assert(u.right =~= t.right + blanks(j + k1)) by {
            assert(u.right =~= (t.right + blanks(k1)) + blanks(j));
        }
        assert(pads_right(u, t, j + k1));
    }
}

} // verus!
