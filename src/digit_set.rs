use vstd::prelude::*;

verus! {

/// Membership over the digits 0 to 9 (0 is never used by a board), held in ten flags.
pub struct SudokuHashSet {
    data: [bool; 10],
}

impl SudokuHashSet {
    /// The digits held.
    pub closed spec fn view(&self) -> Set<u8> {
        Set::new(|d: u8| d <= 9 && self.data@[d as int])
    }

    pub fn new() -> (r: SudokuHashSet)
        ensures
            r@ == Set::<u8>::empty(),
    {
        let r = SudokuHashSet { data: [false; 10] };
        assert(r@ =~= Set::<u8>::empty());
        r
    }

    pub fn insert(&mut self, num: u8)
        requires
            num <= 9,
        ensures
            final(self)@ == old(self)@.insert(num),
    {
        self.data[num as usize] = true;
        assert(self@ =~= old(self)@.insert(num));
    }

    pub fn contains(&self, num: u8) -> (r: bool)
        requires
            num <= 9,
        ensures
            r == self@.contains(num),
    {
        self.data[num as usize]
    }

    /// The set of the given digits.
    pub fn from_digits(digits: &[u8]) -> (r: SudokuHashSet)
        requires
            forall|i: int| 0 <= i < digits@.len() ==> #[trigger] digits@[i] <= 9,
        ensures
            forall|d: u8| #[trigger] r@.contains(d) <==> digits@.contains(d),
    {
        let mut set = SudokuHashSet::new();
        let mut i: usize = 0;
        while i < digits.len()
            invariant
                i <= digits@.len(),
                forall|j: int| 0 <= j < digits@.len() ==> #[trigger] digits@[j] <= 9,
                forall|d: u8| #[trigger] set@.contains(d) <==> digits@.subrange(0, i as int).contains(d),
            decreases digits@.len() - i,
        {
            set.insert(digits[i]);
            proof {
                let prev = digits@.subrange(0, i as int);
                let next = digits@.subrange(0, i + 1);
                assert forall|d: u8| set@.contains(d) <==> next.contains(d) by {
                    if next.contains(d) {
                        let j = choose|j: int| 0 <= j < next.len() && next[j] == d;
                        if j < i {
                            assert(prev[j] == d);
                        }
                    }
                    if prev.contains(d) {
                        let j = choose|j: int| 0 <= j < prev.len() && prev[j] == d;
                        assert(next[j] == d);
                    }
                    if d == digits@[i as int] {
                        assert(next[i as int] == d);
                    }
                }
            }
            i = i + 1;
        }
        assert(digits@.subrange(0, i as int) =~= digits@);
        set
    }
}

} // verus!

verus! {

/// How many of the digits 1..=n the set holds.
pub open spec fn count_upto(s: Set<u8>, n: int) -> int
    decreases n,
{
    if n <= 0 {
        0
    } else {
        count_upto(s, n - 1) + if s.contains(n as u8) {
            1int
        } else {
            0int
        }
    }
}

/// Adding a digit that was absent raises the count by one.
pub proof fn lemma_count_upto_insert(s: Set<u8>, d: u8, n: int)
    requires
        1 <= d <= 9,
        !s.contains(d),
        0 <= n <= 9,
    ensures
        count_upto(s.insert(d), n) == count_upto(s, n) + if d <= n {
            1int
        } else {
            0int
        },
    decreases n,
{
    if n > 0 {
        lemma_count_upto_insert(s, d, n - 1);
    }
}

/// At most `n` of the digits 1..=n are held.
pub proof fn lemma_count_upto_bound(s: Set<u8>, n: int)
    requires
        0 <= n,
    ensures
        0 <= count_upto(s, n) <= n,
    decreases n,
{
    if n > 0 {
        lemma_count_upto_bound(s, n - 1);
    }
}

/// Inserting a digit a second time changes nothing.
pub proof fn lemma_insert_idempotent(s: SudokuHashSet, d: u8)
    ensures
        s@.insert(d).insert(d) == s@.insert(d),
{
    assert(s@.insert(d).insert(d) =~= s@.insert(d));
}

} // verus!
