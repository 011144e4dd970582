//! A set of candidate digits and the grid cell that owns one.
use vstd::prelude::*;

verus! {

/// The digits a cell may hold.
pub open spec fn is_digit(v: u8) -> bool {
    1 <= v <= 9
}

/// Every digit from 1 to 9.
pub open spec fn all_digits() -> Set<u8> {
    Set::new(|v: u8| is_digit(v))
}

/// `v` is a member of `s`, and no member is smaller.
pub open spec fn is_lowest(s: Set<u8>, v: u8) -> bool {
    s.contains(v) && forall|w: u8| s.contains(w) ==> v <= w
}

/// Digits `v` with `1 <= v <= n` whose flag is set.
spec fn flagged_upto(flags: Seq<bool>, n: int) -> Set<u8> {
    Set::new(|v: u8| 1 <= v <= n && flags[v - 1])
}

/// Number of set flags among the first `n`.
spec fn count_flags(flags: Seq<bool>, n: int) -> nat
    decreases n,
{
    if n <= 0 {
        0
    } else {
        count_flags(flags, n - 1) + if flags[n - 1] { 1nat } else { 0nat }
    }
}

proof fn lemma_flagged_upto(flags: Seq<bool>, n: int)
    requires
        0 <= n <= 9,
        flags.len() == 9,
    ensures
        flagged_upto(flags, n).finite(),
        flagged_upto(flags, n).len() == count_flags(flags, n),
    decreases n,
{
    if n == 0 {
        assert(flagged_upto(flags, 0) =~= Set::empty());
    } else {
        lemma_flagged_upto(flags, n - 1);
        let v = n as u8;
        if flags[n - 1] {
            assert(flagged_upto(flags, n) =~= flagged_upto(flags, n - 1).insert(v));
        } else {
            assert(flagged_upto(flags, n) =~= flagged_upto(flags, n - 1));
        }
    }
}

/// A set of candidate digits, one flag per digit.
#[derive(Clone, Copy)]
pub struct CellPossibilities {
    flags: [bool; 9],
}

impl View for CellPossibilities {
    type V = Set<u8>;

    closed spec fn view(&self) -> Set<u8> {
        flagged_upto(self.flags@, 9)
    }
}

/// A candidate set is a finite set of digits, with at most nine members.
pub broadcast proof fn lemma_possibilities_bounded(p: CellPossibilities)
    ensures
        (#[trigger] p@).finite(),
        p@.subset_of(all_digits()),
        p@.len() <= 9,
{
    lemma_flagged_upto(p.flags@, 9);
    assert(count_flags(p.flags@, 9) <= 9) by {
        reveal_with_fuel(count_flags, 10);
    }
}

impl CellPossibilities {
    /// The set of all nine digits.
    pub fn full() -> (r: CellPossibilities)
        ensures
            r@ == all_digits(),
            r@.len() == 9,
    {
        let r = CellPossibilities { flags: [true; 9] };
        assert(r@ =~= all_digits());
        proof {
            lemma_flagged_upto(r.flags@, 9);
            reveal_with_fuel(count_flags, 10);
        }
        r
    }

    /// The set holding `v` alone.
    pub fn singleton(v: u8) -> (r: CellPossibilities)
        requires
            is_digit(v),
        ensures
            r@ == set![v],
    {
        let mut flags = [false; 9];
        flags[(v - 1) as usize] = true;
        let r = CellPossibilities { flags };
        assert(r@ =~= set![v]);
        r
    }

    /// Whether `v` is a candidate.
    pub fn contains(&self, v: u8) -> (r: bool)
        ensures
            r == self@.contains(v),
    {
        if 1 <= v && v <= 9 {
            self.flags[(v - 1) as usize]
        } else {
            false
        }
    }

    /// Removes `v`; a value that is not a candidate leaves the set as it is.
    pub fn remove(&mut self, v: u8)
        ensures
            final(self)@ == old(self)@.remove(v),
    {
        if 1 <= v && v <= 9 {
            self.flags[(v - 1) as usize] = false;
        }
        assert(self@ =~= old(self)@.remove(v));
    }

    /// Number of candidates.
    pub fn len(&self) -> (r: usize)
        ensures
            r == self@.len(),
    {
        let mut n: usize = 0;
        let mut i: usize = 0;
        while i < 9
            invariant
                i <= 9,
                n == count_flags(self.flags@, i as int),
                n <= i,
            decreases 9 - i,
        {
            if self.flags[i] {
                n = n + 1;
            }
            i = i + 1;
        }
        proof {
            lemma_flagged_upto(self.flags@, 9);
        }
        n
    }

    /// The lowest candidate, if any.
    pub fn lowest(&self) -> (r: Option<u8>)
        ensures
            r is None <==> self@.is_empty(),
            r matches Some(v) ==> is_lowest(self@, v),
    {
        let mut i: usize = 0;
        while i < 9
            invariant
                i <= 9,
                forall|w: u8| self@.contains(w) ==> w > i,
            decreases 9 - i,
        {
            if self.flags[i] {
                let v = (i + 1) as u8;
                assert(self@.contains(v));
                return Some(v);
            }
            assert(!self@.contains((i + 1) as u8));
            i = i + 1;
        }
        proof {
            broadcast use lemma_possibilities_bounded;
            assert(self@ =~= Set::empty());
        }
        None
    }
}

/// One grid position: the digits it may still take.
#[derive(Clone, Copy)]
pub struct Cell {
    possibilities: CellPossibilities,
}

impl View for Cell {
    type V = Set<u8>;

    closed spec fn view(&self) -> Set<u8> {
        self.possibilities@
    }
}

/// A cell holds a finite set of digits, with at most nine members.
pub broadcast proof fn lemma_cell_bounded(c: Cell)
    ensures
        (#[trigger] c@).finite(),
        c@.subset_of(all_digits()),
        c@.len() <= 9,
{
    lemma_possibilities_bounded(c.possibilities);
}

/// The decimal digit characters, indexed by value.
pub open spec fn digit_chars() -> Seq<char> {
    seq!['0', '1', '2', '3', '4', '5', '6', '7', '8', '9']
}

/// The character shown for digit `v`.
pub open spec fn digit_char(v: u8) -> char {
    digit_chars()[v as int]
}

/// The characters a cell can be shown as.
pub open spec fn is_symbol_char(ch: char) -> bool {
    ||| ch == '-'
    ||| ch == '0'
    ||| ch == '1'
    ||| ch == '2'
    ||| ch == '3'
    ||| ch == '4'
    ||| ch == '5'
    ||| ch == '6'
    ||| ch == '7'
    ||| ch == '8'
    ||| ch == '9'
}

/// How a cell with candidates `s` is shown: its digit once it is determined,
/// `'0'` when nothing is left, `'-'` while it is still open.
pub open spec fn symbol_of(s: Set<u8>) -> char {
    if s.len() == 1 {
        digit_char(choose|v: u8| s.contains(v))
    } else if s.len() == 0 {
        '0'
    } else {
        '-'
    }
}

/// A finite set of one member holds nothing else.
pub proof fn lemma_single_member(s: Set<u8>, v: u8)
    requires
        s.finite(),
        s.len() == 1,
        s.contains(v),
    ensures
        s == set![v],
{
    assert(s.remove(v).len() == 0);
    assert(s.remove(v) =~= Set::empty());
    assert(s =~= set![v]);
}

impl Cell {
    /// A cell that may still take every digit.
    pub fn new() -> (r: Cell)
        ensures
            r@ == all_digits(),
            r@.len() == 9,
    {
        Cell { possibilities: CellPossibilities::full() }
    }

    /// Rules out `num`; nothing changes when it was not a candidate.
    pub fn restrict(&mut self, num: u8)
        ensures
            final(self)@ == old(self)@.remove(num),
    {
        self.possibilities.remove(num);
    }

    /// Fixes the cell to `num`, whatever it held, and returns the candidates
    /// that this decision discards.
    pub fn collapse(&mut self, num: u8) -> (r: CellPossibilities)
        requires
            is_digit(num),
        ensures
            final(self)@ == set![num],
            final(self)@.len() == 1,
            r@ == old(self)@.remove(num),
    {
        let mut ret = self.possibilities;
        ret.remove(num);
        self.possibilities = CellPossibilities::singleton(num);
        ret
    }

    /// Number of candidates left.
    pub fn possibilities_left(&self) -> (r: usize)
        ensures
            r == self@.len(),
    {
        self.possibilities.len()
    }

    /// The lowest candidate left, if any.
    pub fn lowest(&self) -> (r: Option<u8>)
        ensures
            r is None <==> self@.is_empty(),
            r matches Some(v) ==> is_lowest(self@, v),
    {
        self.possibilities.lowest()
    }

    /// The one character that shows this cell.
    pub fn symbol(&self) -> (r: char)
        ensures
            r == symbol_of(self@),
            is_symbol_char(r),
    {
        proof {
            lemma_cell_bounded(*self);
        }
        let n = self.possibilities_left();
        if n == 1 {
            match self.lowest() {
                Some(v) => {
                    proof {
                        lemma_single_member(self@, v);
                        let w = choose|w: u8| self@.contains(w);
                        assert(self@.contains(w));
                    }
                    let digits: [char; 10] = ['0', '1', '2', '3', '4', '5', '6', '7', '8', '9'];
                    assert(digits@ =~= digit_chars());
                    digits[v as usize]
                },
                None => '0',
            }
        } else if n == 0 {
            '0'
        } else {
            '-'
        }
    }
}

/// Ruling a value out twice leaves the same candidates as ruling it out once.
pub proof fn lemma_restrict_idempotent(c: Cell, v: u8)
    ensures
        c@.remove(v).remove(v) == c@.remove(v),
{
    assert(c@.remove(v).remove(v) =~= c@.remove(v));
}

} // verus!
