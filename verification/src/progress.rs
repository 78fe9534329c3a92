use vstd::prelude::*;

use crate::expand::push_str;
use crate::text::{decimal, decimal_string, push_char};

verus! {

/// A progress bar over a number of commands.
#[derive(Debug)]
pub struct Progress {
    total: usize,
    finished: usize,
    enabled: bool,
}

/// The counter shown after the bar: ` (finished/total)`.
pub open spec fn counter_text(finished: nat, total: nat) -> Seq<char> {
    seq![' ', '('] + decimal(finished) + seq!['/'] + decimal(total) + seq![')']
}

/// How many columns the bar itself takes: what is left of the terminal once the counter
/// and three more columns are set aside, but never fewer than 10.
pub open spec fn bar_width(columns: nat, counter_len: nat) -> nat {
    let reserved = counter_len + 3;
    let left: nat = if columns >= reserved { (columns - reserved) as nat } else { 0 };
    if left > 10 { left } else { 10 }
}

/// The cells of the bar: `=` for what is done, `>` at the head while work remains,
/// blanks after.
pub open spec fn bar_cells(width: nat, filled: nat, finished: nat, total: nat) -> Seq<char> {
    Seq::new(width, |i: int| if i < filled { '=' } else if i == filled && finished < total { '>' } else { ' ' })
}

/// The whole line: `[bar] (finished/total)`.
pub open spec fn bar_line(finished: nat, total: nat, columns: nat) -> Seq<char> {
    let counter = counter_text(finished, total);
    let width = bar_width(columns, counter.len());
    let filled = if total == 0 { 0 } else { finished * width / total };
    seq!['['] + bar_cells(width, filled, finished, total) + seq![']'] + counter
}

impl Progress {
    /// Never more finished commands than there are.
    #[verifier::type_invariant]
    spec fn counts_fit(&self) -> bool {
        self.finished <= self.total
    }

    pub closed spec fn total(&self) -> nat {
        self.total as nat
    }

    pub closed spec fn finished(&self) -> nat {
        self.finished as nat
    }

    pub closed spec fn enabled(&self) -> bool {
        self.enabled
    }

    /// A bar over `total` commands, none finished; `enabled` tells whether there is a
    /// terminal to draw on.
    pub fn new(total: usize, enabled: bool) -> (p: Progress)
        ensures
            p.total() == total,
            p.finished() == 0,
            p.enabled() == enabled,
    {
        Progress { total, finished: 0, enabled }
    }

    /// Sets the number of finished commands, capped at the total.
    pub fn set_finished(&mut self, finished: usize)
        ensures
            final(self).finished() == (if finished < old(self).total() { finished as nat } else { old(self).total() }),
            final(self).total() == old(self).total(),
            final(self).enabled() == old(self).enabled(),
    {
        self.finished = if finished < self.total { finished } else { self.total };
    }

    /// Counts one more finished command, never past the total.
    pub fn increment(&mut self)
        ensures
            final(self).finished() == (if old(self).finished() < old(self).total() { old(self).finished() + 1 } else { old(self).finished() }),
            final(self).total() == old(self).total(),
            final(self).enabled() == old(self).enabled(),
    {
        if self.finished < self.total {
            self.finished = self.finished + 1;
        }
    }

    /// Whether the bar's line must be cleared before other output, and at the end.
    pub fn clear(&self) -> (b: bool)
        ensures
            b == (self.enabled() && self.total() != 0),
    {
        self.enabled && self.total != 0
    }

    /// Whether the bar's line must be cleared when the build ends.
    pub fn finish(&self) -> (b: bool)
        ensures
            b == (self.enabled() && self.total() != 0),
    {
        self.clear()
    }

    /// The bar line to draw on a terminal of the given size, or `None` when nothing is drawn.
    pub fn draw(&self, columns: u16, rows: u16) -> (r: Option<String>)
        ensures
            match r {
                None => self.total() == 0 || !self.enabled() || rows == 0 || columns == 0,
                Some(s) => self.total() != 0 && self.enabled() && rows != 0 && columns != 0
                    && s@ == bar_line(self.finished(), self.total(), columns as nat),
            },
    {
        proof {
            use_type_invariant(self);
        }
        if self.total == 0 || !self.enabled || rows == 0 || columns == 0 {
            return None;
        }
        let mut counter = String::new();
        push_char(&mut counter, ' ');
        push_char(&mut counter, '(');
        push_str(&mut counter, decimal_string(self.finished).as_str());
        push_char(&mut counter, '/');
        push_str(&mut counter, decimal_string(self.total).as_str());
        push_char(&mut counter, ')');
        let ghost cv = counter_text(self.finished as nat, self.total as nat);
        assert(counter@ =~= cv);
        let counter_len = counter_length(self.finished, self.total);
        assert(counter_len == cv.len());
        let cols = columns as usize;
        let reserved = counter_len + 3;
        let left = if cols >= reserved { cols - reserved } else { 0 };
        let width = if left > 10 { left } else { 10 };
        assert(width == bar_width(columns as nat, cv.len()));
        assert(width <= 65535);
        let fin = self.finished as u128;
        let tot = self.total as u128;
        let w = width as u128;
        assert(fin * w <= tot * w) by (nonlinear_arith)
            requires
                fin <= tot,
        ;
        assert(fin * w <= 0xffff_ffff_ffff_ffffu128 * 0xffffu128) by (nonlinear_arith)
            requires
                fin <= 0xffff_ffff_ffff_ffffu128,
                w <= 0xffffu128,
        ;
        let prod = fin * w;
        let filled = prod / tot;
        assert(filled <= w) by (nonlinear_arith)
            requires
                filled == prod / tot,
                prod <= tot * w,
                tot > 0,
        ;
        let filled = filled as usize;
        let mut line = String::new();
        push_char(&mut line, '[');
        let mut i: usize = 0;
        while i < width
            invariant
                i <= width,
                filled <= width,
                line@ == seq!['['] + bar_cells(width as nat, filled as nat, self.finished as nat, self.total as nat).subrange(0, i as int),
            decreases width - i,
        {
            let c = if i < filled {
                '='
            } else if i == filled && self.finished < self.total {
                '>'
            } else {
                ' '
            };
            push_char(&mut line, c);
            i = i + 1;
            assert(line@ =~= seq!['['] + bar_cells(width as nat, filled as nat, self.finished as nat, self.total as nat).subrange(0, i as int));
        }
        push_char(&mut line, ']');
        push_str(&mut line, counter.as_str());
        assert(line@ =~= bar_line(self.finished as nat, self.total as nat, columns as nat));
        Some(line)
    }
}

pub open spec fn pow10(k: nat) -> nat
    decreases k,
{
    if k == 0 {
        1
    } else {
        10 * pow10((k - 1) as nat)
    }
}

proof fn lemma_decimal_len(n: nat, k: nat)
    requires
        n < pow10(k),
        k >= 1,
    ensures
        decimal(n).len() <= k,
    decreases k,
{
    if n >= 10 {
        assert(k >= 2) by {
            if k == 1 {
                assert(pow10(1) == 10 * pow10(0));
            }
        }
        let k1 = (k - 1) as nat;
        assert(pow10(k) == 10 * pow10(k1));
        assert(n / 10 < pow10(k1)) by (nonlinear_arith)
            requires
                n < 10 * pow10(k1),
        ;
        lemma_decimal_len(n / 10, k1);
    }
}

/// The number of decimal digits of `n`.
fn digit_count(n: usize) -> (c: usize)
    ensures
        c == decimal(n as nat).len(),
        c <= 20,
    decreases n,
{
    proof {
        reveal_with_fuel(pow10, 21);
        assert(n < pow10(20));
        lemma_decimal_len(n as nat, 20);
    }
    if n < 10 {
        1
    } else {
        digit_count(n / 10) + 1
    }
}

fn counter_length(finished: usize, total: usize) -> (c: usize)
    ensures
        c == counter_text(finished as nat, total as nat).len(),
        c <= 45,
{
    digit_count(finished) + digit_count(total) + 4
}

} // verus!
