//! Binary search over training data.
use vstd::prelude::*;
use std::cmp::Ordering;
use crate::training_data::RMITrainingData;

verus! {

/// `f` answers `Less` for `x`.
pub open spec fn answers_less<F: Fn((u64, usize)) -> Ordering>(f: F, x: (u64, usize)) -> bool {
    call_ensures(f, (x,), Ordering::Less)
}

/// `f` gives an answer other than `Less` for `x`.
pub open spec fn answers_not_less<F: Fn((u64, usize)) -> Ordering>(
    f: F,
    x: (u64, usize),
) -> bool {
    exists|o: Ordering| #[trigger] call_ensures(f, (x,), o) && o != Ordering::Less
}

/// Every answer `f` can give for `x` is `Less`.
pub open spec fn only_less<F: Fn((u64, usize)) -> Ordering>(f: F, x: (u64, usize)) -> bool {
    forall|o: Ordering| #[trigger] call_ensures(f, (x,), o) ==> o == Ordering::Less
}

/// No answer `f` can give for `x` is `Less`.
pub open spec fn never_less<F: Fn((u64, usize)) -> Ordering>(f: F, x: (u64, usize)) -> bool {
    forall|o: Ordering| #[trigger] call_ensures(f, (x,), o) ==> o != Ordering::Less
}

/// `f` can be called on any entry and answers the same for the same entry.
pub open spec fn is_comparator<F: Fn((u64, usize)) -> Ordering>(f: F) -> bool {
    &&& forall|x: (u64, usize)| call_requires(f, (x,))
    &&& forall|x: (u64, usize), a: Ordering, b: Ordering|
        #![trigger call_ensures(f, (x,), a), call_ensures(f, (x,), b)]
        call_ensures(f, (x,), a) && call_ensures(f, (x,), b) ==> a == b
}

/// The entries `f` answers `Less` for all come before the others: whenever
/// `f` answers `Less` for an entry, it answers `Less` for every earlier one.
pub open spec fn less_entries_first<F: Fn((u64, usize)) -> Ordering>(
    data: RMITrainingData,
    f: F,
) -> bool {
    forall|i: int, j: int, a: Ordering, b: Ordering|
        0 <= i < j < data.spec_len() && #[trigger] call_ensures(
            f,
            (data.uint_usize_entry(i),),
            a,
        ) && #[trigger] call_ensures(f, (data.uint_usize_entry(j),), b) && b == Ordering::Less
            ==> a == Ordering::Less
}

impl RMITrainingData {
    /// Binary search for the first entry (key as an integer, offset scaled)
    /// for which `f` does not answer `Less`.
    ///
    /// The result `r` is a boundary: `f` answered `Less` for the entry
    /// before it and something else for the entry at it. When the entries
    /// answered `Less` all come first, `r` is exactly their number.
    pub fn lower_bound_by<F>(&self, f: F) -> (r: usize) where F: Fn((u64, usize)) -> Ordering
        requires
            is_comparator(f),
        ensures
            r <= self.spec_len(),
            0 < r ==> answers_less(f, self.uint_usize_entry(r - 1)),
            r < self.spec_len() ==> answers_not_less(f, self.uint_usize_entry(r + 0)),
            less_entries_first(*self, f) ==> {
                &&& forall|i: int| 0 <= i < r ==> only_less(f, #[trigger] self.uint_usize_entry(i))
                &&& forall|i: int|
                    r <= i < self.spec_len() ==> never_less(f, #[trigger] self.uint_usize_entry(i))
            },
    {
        let mut size = self.len();
        if size == 0 {
            return 0;
        }
        let mut base: usize = 0;
        while size > 1
            invariant
                is_comparator(f),
                1 <= size,
                base + size <= self.spec_len(),
                self.spec_len() <= usize::MAX,
                base == 0 || answers_less(f, self.uint_usize_entry(base + 0)),
                base + size == self.spec_len() || answers_not_less(
                    f,
                    self.uint_usize_entry(base + size),
                ) || (size >= 2 && answers_not_less(f, self.uint_usize_entry(base + size - 1))),
            decreases size,
        {
            let half = size / 2;
            let mid = base + half;
            let entry = self.get_uint_usize(mid);
            let answer = f(entry);
            match answer {
                Ordering::Less => {
                    base = mid;
                },
                _ => {
                    assert(answers_not_less(f, entry));
                },
            }
            size = size - half;
        }
        let entry = self.get_uint_usize(base);
        let answer = f(entry);
        let r = match answer {
            Ordering::Less => base + 1,
            _ => {
                assert(answers_not_less(f, entry));
                base
            },
        };
        proof {
            if less_entries_first(*self, f) {
                assert forall|i: int| 0 <= i < r implies only_less(
                    f,
                    #[trigger] self.uint_usize_entry(i),
                ) by {
                    assert forall|o: Ordering| #[trigger]
                        call_ensures(f, (self.uint_usize_entry(i),), o) implies o
                        == Ordering::Less by {
                        assert(answers_less(f, self.uint_usize_entry(r - 1)));
                    }
                }
                assert forall|i: int| r <= i < self.spec_len() implies never_less(
                    f,
                    #[trigger] self.uint_usize_entry(i),
                ) by {
                    let e = self.uint_usize_entry(r + 0);
                    assert(answers_not_less(f, e));
                    let o_r = choose|o: Ordering| #[trigger] call_ensures(f, (e,), o) && o
                        != Ordering::Less;
                    assert forall|o: Ordering| #[trigger]
                        call_ensures(f, (self.uint_usize_entry(i),), o) implies o
                        != Ordering::Less by {
                        if i > r && o == Ordering::Less {
                            assert(call_ensures(f, (e,), o_r));
                        }
                    }
                }
            }
        }
        r
    }
}

} // verus!
