//! Editing the expression line: inserting and deleting at the cursor, and
//! moving the cursor by character or by run of characters of one class.

use crate::calc::{jump_kind_of_char, CalcJumpToken, Calculator};
use vstd::prelude::*;

verus! {

/// A key that edits the expression.
#[derive(Clone, Copy, Debug, PartialEq, Eq, Structural)]
pub enum CalcKey {
    Key(char),
    Delete,
}

/// The class of character `i` of `s`, or `None` past its end.
pub open spec fn class_at(s: Seq<char>, i: int) -> Option<CalcJumpToken> {
    if 0 <= i < s.len() {
        jump_kind_of_char(s[i])
    } else {
        None
    }
}

/// Characters `lo` through `hi` of `s` all have class `k`.
pub open spec fn same_class(s: Seq<char>, lo: int, hi: int, k: CalcJumpToken) -> bool {
    forall|j: int| lo <= j <= hi ==> class_at(s, j) == Some(k)
}

/// Where a jump to the left ends, from `p`: the cursor first steps off the
/// end of the line, then moves to the first character of the run of its
/// character's class; when it already stands there, it steps one further
/// left onto a character of another class.
pub open spec fn left_jump_target(s: Seq<char>, pos: int) -> int {
    let p = if pos == s.len() && pos > 0 {
        pos - 1
    } else {
        pos
    };
    match class_at(s, p) {
        None => p,
        Some(k) => {
            let j = choose|j: int|
                0 <= j <= p && same_class(s, j, p, k) && (j == 0 || class_at(s, j - 1) != Some(k));
            if j < p {
                j
            } else if p > 0 && class_at(s, p - 1) is Some {
                p - 1
            } else {
                p
            }
        },
    }
}

/// Where a jump to the right ends, from `pos`: on the last character of the
/// run of its character's class; when it already stands there, one step
/// further right onto a character of another class.
pub open spec fn right_jump_target(s: Seq<char>, pos: int) -> int {
    match class_at(s, pos) {
        None => pos,
        Some(k) => {
            let j = choose|j: int|
                pos <= j < s.len() && same_class(s, pos, j, k) && class_at(s, j + 1) != Some(k);
            if j > pos {
                j
            } else if class_at(s, pos + 1) is Some {
                pos + 1
            } else {
                pos
            }
        },
    }
}

/// The run of class `k` that ends at `p` starts at exactly one place.
proof fn lemma_run_start(s: Seq<char>, p: int, k: CalcJumpToken, j: int)
    requires
        0 <= j <= p,
        same_class(s, j, p, k),
        j == 0 || class_at(s, j - 1) != Some(k),
    ensures
        (choose|i: int| 0 <= i <= p && same_class(s, i, p, k) && (i == 0 || class_at(s, i - 1) != Some(k))) == j,
{
    let i = choose|i: int| 0 <= i <= p && same_class(s, i, p, k) && (i == 0 || class_at(s, i - 1) != Some(k));
    if i < j {
        assert(class_at(s, j - 1) == Some(k));
    } else if j < i {
        assert(class_at(s, i - 1) == Some(k));
    }
}

/// The run of class `k` that starts at `p` ends at exactly one place.
proof fn lemma_run_end(s: Seq<char>, p: int, k: CalcJumpToken, j: int)
    requires
        p <= j < s.len(),
        same_class(s, p, j, k),
        class_at(s, j + 1) != Some(k),
    ensures
        (choose|i: int| p <= i < s.len() && same_class(s, p, i, k) && class_at(s, i + 1) != Some(k)) == j,
{
    let i = choose|i: int| p <= i < s.len() && same_class(s, p, i, k) && class_at(s, i + 1) != Some(k);
    if i < j {
        assert(class_at(s, i + 1) == Some(k));
    } else if j < i {
        assert(class_at(s, j + 1) == Some(k));
    }
}

impl Calculator {
    /// The cursor is within the line, and the line's length fits the cursor.
    pub open spec fn edit_ok(&self) -> bool {
        self.calc_pos <= self.calc@.len() <= u16::MAX
    }

    /// Inserts a character at the cursor, or deletes the one before it, and
    /// clears the selection of earlier calculations.
    pub fn append_key_to_calc(&mut self, k: &CalcKey)
        requires
            old(self).edit_ok(),
            *k matches CalcKey::Key(_) ==> old(self).calc@.len() < u16::MAX,
        ensures
            final(self).edit_ok(),
            final(self).selected_calc == 0,
            !final(self).selected_equals,
            match *k {
                CalcKey::Key(x) => final(self).calc@ == old(self).calc@.insert(old(self).calc_pos as int, x)
                    && final(self).calc_pos == old(self).calc_pos + 1,
                CalcKey::Delete => if old(self).calc_pos == 0 {
                    final(self).calc@ == old(self).calc@ && final(self).calc_pos == 0
                } else {
                    final(self).calc@ == old(self).calc@.remove(old(self).calc_pos - 1)
                        && final(self).calc_pos == old(self).calc_pos - 1
                },
            },
    {
        self.selected_calc = 0;
        self.selected_equals = false;
        match k {
            CalcKey::Key(x) => {
                self.calc.insert(self.calc_pos as usize, *x);
                self.calc_pos = self.calc_pos + 1;
            },
            CalcKey::Delete => {
                if self.calc_pos == 0 {
                    return;
                }
                self.calc.remove((self.calc_pos - 1) as usize);
                self.calc_pos = self.calc_pos - 1;
            },
        }
    }

    /// Moves the cursor one character left; with an earlier calculation
    /// selected, selects its expression side instead.
    pub fn move_cursor_left(&mut self)
        requires
            old(self).edit_ok(),
        ensures
            final(self).calc@ == old(self).calc@,
            final(self).selected_calc == old(self).selected_calc,
            if old(self).selected_calc == 0 {
                final(self).calc_pos == if old(self).calc_pos > 0 {
                    old(self).calc_pos - 1
                } else {
                    0
                } && final(self).selected_equals == old(self).selected_equals
            } else {
                final(self).calc_pos == old(self).calc_pos && !final(self).selected_equals
            },
            final(self).edit_ok(),
    {
        if self.selected_calc == 0 {
            if self.calc_pos > 0 {
                self.calc_pos = self.calc_pos - 1;
            }
        } else {
            self.selected_equals = false;
        }
    }

    /// Moves the cursor one character right; with an earlier calculation
    /// selected, selects its result side instead.
    pub fn move_cursor_right(&mut self)
        requires
            old(self).edit_ok(),
        ensures
            final(self).calc@ == old(self).calc@,
            final(self).selected_calc == old(self).selected_calc,
            if old(self).selected_calc == 0 {
                final(self).calc_pos == if (old(self).calc_pos as int) < old(self).calc@.len() {
                    old(self).calc_pos + 1
                } else {
                    old(self).calc_pos as int
                } && final(self).selected_equals == old(self).selected_equals
            } else {
                final(self).calc_pos == old(self).calc_pos && final(self).selected_equals
            },
            final(self).edit_ok(),
    {
        if self.selected_calc == 0 {
            if (self.calc_pos as usize) < self.calc.len() {
                self.calc_pos = self.calc_pos + 1;
            }
        } else {
            self.selected_equals = true;
        }
    }

    /// Moves the cursor to the start of the line and clears the selection.
    pub fn move_cursor_home(&mut self)
        ensures
            final(self).calc@ == old(self).calc@,
            final(self).calc_pos == 0,
            final(self).selected_calc == 0,
            !final(self).selected_equals,
    {
        self.selected_calc = 0;
        self.selected_equals = false;
        self.calc_pos = 0;
    }

    /// Moves the cursor to the end of the line and clears the selection.
    pub fn move_cursor_end(&mut self)
        requires
            old(self).calc@.len() <= u16::MAX,
        ensures
            final(self).calc@ == old(self).calc@,
            final(self).calc_pos == old(self).calc@.len(),
            final(self).selected_calc == 0,
            !final(self).selected_equals,
    {
        self.move_cursor_home();
        self.calc_pos = self.calc.len() as u16;
    }

    /// Jumps the cursor left to the start of its run of characters of one
    /// class (see `left_jump_target`); with an earlier calculation selected,
    /// selects its expression side instead.
    pub fn move_cursor_left_token(&mut self)
        requires
            old(self).edit_ok(),
        ensures
            final(self).edit_ok(),
            final(self).calc@ == old(self).calc@,
            final(self).selected_calc == old(self).selected_calc,
            old(self).selected_calc == 0 ==> final(self).calc_pos == left_jump_target(
                old(self).calc@,
                old(self).calc_pos as int,
            ) && final(self).selected_equals == old(self).selected_equals,
            old(self).selected_calc != 0 ==> final(self).calc_pos == old(self).calc_pos
                && !final(self).selected_equals,
    {
        if self.selected_calc != 0 {
            self.selected_equals = false;
            return;
        }
        let ghost s = self.calc@;
        if self.calc_pos as usize == self.calc.len() {
            self.move_cursor_left();
        }
        let ghost p = self.calc_pos as int;
        let start = match self.get_token_type_at_pos(self.calc_pos) {
            Some(t) => t,
            None => {
                return;
            },
        };
        let mut have_moved = false;
        while self.calc_pos > 0
            invariant
                self.calc@ == s,
                s == old(self).calc@,
                old(self).selected_calc == 0,
                self.selected_calc == 0,
                self.selected_equals == old(self).selected_equals,
                self.edit_ok(),
                self.calc_pos <= p,
                p == (if old(self).calc_pos == s.len() && old(self).calc_pos > 0 {
                    old(self).calc_pos - 1
                } else {
                    old(self).calc_pos as int
                }),
                class_at(s, p) == Some(start),
                same_class(s, self.calc_pos as int, p, start),
                have_moved == (self.calc_pos < p),
            decreases self.calc_pos,
        {
            let pos_token = match self.get_token_type_at_pos(self.calc_pos - 1) {
                Some(t) => t,
                None => {
                    proof {
                        lemma_run_start(s, p, start, self.calc_pos as int);
                    }
                    return;
                },
            };
            if start != pos_token {
                proof {
                    lemma_run_start(s, p, start, self.calc_pos as int);
                }
                if !have_moved {
                    self.move_cursor_left();
                }
                return;
            }
            have_moved = true;
            self.move_cursor_left();
        }
        proof {
            lemma_run_start(s, p, start, 0);
        }
    }

    /// Jumps the cursor right to the end of its run of characters of one
    /// class (see `right_jump_target`); with an earlier calculation
    /// selected, selects its result side instead.
    pub fn move_cursor_right_token(&mut self)
        requires
            old(self).edit_ok(),
        ensures
            final(self).edit_ok(),
            final(self).calc@ == old(self).calc@,
            final(self).selected_calc == old(self).selected_calc,
            old(self).selected_calc == 0 ==> final(self).calc_pos == right_jump_target(
                old(self).calc@,
                old(self).calc_pos as int,
            ) && final(self).selected_equals == old(self).selected_equals,
            old(self).selected_calc != 0 ==> final(self).calc_pos == old(self).calc_pos
                && final(self).selected_equals,
    {
        if self.selected_calc != 0 {
            self.selected_equals = true;
            return;
        }
        let ghost s = self.calc@;
        let ghost p = self.calc_pos as int;
        let start = match self.get_token_type_at_pos(self.calc_pos) {
            Some(t) => t,
            None => {
                return;
            },
        };
        let mut have_moved = false;
        while (self.calc_pos as usize) < self.calc.len()
            invariant
                self.calc@ == s,
                s == old(self).calc@,
                old(self).selected_calc == 0,
                self.selected_calc == 0,
                self.selected_equals == old(self).selected_equals,
                self.edit_ok(),
                p == old(self).calc_pos,
                p <= self.calc_pos < s.len(),
                same_class(s, p, self.calc_pos as int, start),
                have_moved == (self.calc_pos > p),
            decreases s.len() - self.calc_pos,
        {
            let pos_token = match self.get_token_type_at_pos(self.calc_pos + 1) {
                Some(t) => t,
                None => {
                    proof {
                        lemma_run_end(s, p, start, self.calc_pos as int);
                    }
                    return;
                },
            };
            if start != pos_token {
                proof {
                    lemma_run_end(s, p, start, self.calc_pos as int);
                }
                if !have_moved {
                    self.move_cursor_right();
                }
                return;
            }
            have_moved = true;
            self.move_cursor_right();
        }
    }

    /// The class of the character at `pos`, or `None` past the end.
    pub fn get_token_type_at_pos(&self, pos: u16) -> (r: Option<CalcJumpToken>)
        ensures
            r == class_at(self.calc@, pos as int),
    {
        if (pos as usize) < self.calc.len() {
            CalcJumpToken::get_token_matching_char(self.calc[pos as usize])
        } else {
            None
        }
    }
}

} // verus!
