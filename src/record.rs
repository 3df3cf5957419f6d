//! Per-symbol occurrence counts.
use vstd::prelude::*;

verus! {

/// How often each of `N` symbols has been seen.
#[derive(Clone, Copy)]
pub struct Record<const N: usize> {
    map: [usize; N],
}

impl<const N: usize> View for Record<N> {
    type V = Seq<usize>;

    closed spec fn view(&self) -> Seq<usize> {
        self.map@
    }
}

/// The symbol that byte `b` stands for: the value of a decimal digit.
pub open spec fn digit_of(b: u8) -> Option<int> {
    if '0' as u8 <= b && b <= '9' as u8 {
        Some(b - ('0' as u8))
    } else {
        None
    }
}

/// The symbol that `c` stands for: the value of a decimal digit.
pub open spec fn digit_of_char(c: char) -> Option<int> {
    if (c as u32) < 128 {
        digit_of(c as u8)
    } else {
        None
    }
}

/// Counting `d` in `counts` stays in range.
pub open spec fn can_count(counts: Seq<usize>, d: Option<int>) -> bool {
    match d {
        Some(i) => 0 <= i < counts.len() && counts[i] < usize::MAX,
        None => true,
    }
}

/// `counts` after one more `d`.
pub open spec fn counted(counts: Seq<usize>, d: Option<int>) -> Seq<usize> {
    match d {
        Some(i) => counts.update(i, (counts[i] + 1) as usize),
        None => counts,
    }
}

impl<const N: usize> Default for Record<N> {
    fn default() -> (r: Self)
        ensures
            r@ == Seq::new(N as nat, |i: int| 0usize),
    {
        let map: [usize; N] = [0usize; N];
        let r = Record { map };
        proof {
            assert(r@ =~= Seq::new(N as nat, |i: int| 0usize));
        }
        r
    }
}

impl<const N: usize> Record<N> {
    /// Counts byte `b` when it is a decimal digit; ignores it otherwise.
    pub fn record_byte(&mut self, b: u8)
        requires
            can_count(old(self)@, digit_of(b)),
        ensures
            final(self)@ == counted(old(self)@, digit_of(b)),
    {
        if b >= 48 && b <= 57 {
            let i = (b - 48) as usize;
            let v = self.map[i];
            self.map.set(i, v + 1);
        }
    }

    /// Counts `c` when it is a decimal digit; ignores it otherwise.
    pub fn record_char(&mut self, c: char)
        requires
            can_count(old(self)@, digit_of_char(c)),
        ensures
            final(self)@ == counted(old(self)@, digit_of_char(c)),
    {
        if (c as u32) < 128 {
            self.record_byte(c as u8);
        }
    }

    /// Counts symbol `n`.
    pub fn record_index(&mut self, n: usize)
        requires
            can_count(old(self)@, Some(n as int)),
        ensures
            final(self)@ == counted(old(self)@, Some(n as int)),
    {
        let v = self.map[n];
        self.map.set(n, v + 1);
    }

    /// The count of each symbol.
    pub fn counts(&self) -> (r: [usize; N])
        ensures
            r@ == self@,
    {
        self.map
    }
}

} // verus!
