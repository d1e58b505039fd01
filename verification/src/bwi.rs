//! Bounded wrapping iterator over one axis.
//!
//! `BWI` enumerates the inclusive window `from..=to`, clipped to the axis
//! bounds `lowest..=highest`, as an ascending run; when the axis wraps, a
//! window that sticks out past `highest` additionally yields `lowest` first,
//! and one that sticks out below `lowest` additionally yields `highest`
//! last. Each instance is single-pass: `next` hands out the values one by
//! one and a fresh instance is needed to iterate again.

use vstd::prelude::*;

verus! {

/// The clipped ascending run `max(from, lowest) ..= min(to, highest)`,
/// empty when the clipped bounds cross.
pub open spec fn bwr_run(from: int, to: int, lowest: int, highest: int) -> Seq<int> {
    let lo = if from > lowest {
        from
    } else {
        lowest
    };
    let hi = if to < highest {
        to
    } else {
        highest
    };
    if hi < lo {
        Seq::empty()
    } else {
        Seq::new((hi - lo + 1) as nat, |i: int| lo + i)
    }
}

/// The full emitted sequence: the wrapped low endpoint (when the window
/// exceeds `highest` on a wrapping axis), then the clipped run, then the
/// wrapped high endpoint (when the window undershoots `lowest`).
pub open spec fn bwr_seq(from: int, to: int, lowest: int, highest: int, wrap: bool) -> Seq<int> {
    (if wrap && to > highest {
        seq![lowest]
    } else {
        Seq::empty()
    }) + bwr_run(from, to, lowest, highest) + (if wrap && from < lowest {
        seq![highest]
    } else {
        Seq::empty()
    })
}

/// Single-pass iterator over `bwr_seq`.
pub struct BWI {
    first: Option<i32>,
    current: Option<i32>,
    to: i32,
    last: Option<i32>,
}

impl BWI {
    /// The values this iterator has yet to emit.
    pub closed spec fn remaining(self) -> Seq<int> {
        (match self.first {
            Some(f) => seq![f as int],
            None => Seq::empty(),
        }) + (match self.current {
            Some(c) => if c <= self.to {
                Seq::new((self.to - c + 1) as nat, |i: int| c + i)
            } else {
                Seq::empty()
            },
            None => Seq::empty(),
        }) + (match self.last {
            Some(l) => seq![l as int],
            None => Seq::empty(),
        })
    }

    /// The emitted run never passes the clipped upper bound.
    pub closed spec fn wf(self) -> bool {
        self.current matches Some(c) ==> c <= self.to
    }

    /// All bounds are inclusive; `lowest <= highest` delimits the axis and
    /// `from <= to` is the window to cover.
    pub fn new(from: i32, to: i32, lowest: i32, highest: i32, wrap: bool) -> (r: Self)
        requires
            lowest <= highest,
        ensures
            r.wf(),
            r.remaining() == bwr_seq(from as int, to as int, lowest as int, highest as int, wrap),
    {
        let start = if from > lowest {
            from
        } else {
            lowest
        };
        let stop = if to < highest {
            to
        } else {
            highest
        };
        let r = Self {
            first: if to > highest && wrap {
                Some(lowest)
            } else {
                None
            },
            last: if from < lowest && wrap {
                Some(highest)
            } else {
                None
            },
            current: if start <= stop {
                Some(start)
            } else {
                None
            },
            to: stop,
        };
        proof {
            assert(r.remaining() =~= bwr_seq(
                from as int,
                to as int,
                lowest as int,
                highest as int,
                wrap,
            ));
        }
        r
    }

    /// Emits the next value of the window, in order, and `None` once the
    /// window is exhausted.
    pub fn next(&mut self) -> (r: Option<i32>)
        requires
            old(self).wf(),
        ensures
            final(self).wf(),
            old(self).remaining().len() == 0 ==> r is None && final(self).remaining()
                == old(self).remaining(),
            old(self).remaining().len() > 0 ==> (r matches Some(v) && v as int == old(
                self,
            ).remaining()[0] && final(self).remaining() == old(self).remaining().skip(1)),
    {
        let r = if let Some(first) = self.first {
            self.first = None;
            Some(first)
        } else if let Some(mid) = self.current {
            if mid < self.to {
                self.current = Some(mid + 1);
            } else {
                self.current = None;
            }
            Some(mid)
        } else if let Some(last) = self.last {
            self.last = None;
            Some(last)
        } else {
            None
        };
        proof {
            if old(self).remaining().len() == 0 {
                assert(self.remaining() =~= old(self).remaining());
            } else {
                assert(self.remaining() =~= old(self).remaining().skip(1));
            }
        }
        r
    }
}

/// For an index `idx` on an axis `0 ..= n - 1`, the window `idx-1 ..= idx+1`
/// without wrapping is exactly the ascending intersection of that window
/// with the axis; with wrapping, the opposite bound is additionally emitted
/// at each edge.
pub proof fn lemma_bwr_window(idx: int, n: int)
    requires
        1 <= n,
        0 <= idx < n,
    ensures
        bwr_seq(idx - 1, idx + 1, 0, n - 1, false) == bwr_run(idx - 1, idx + 1, 0, n - 1),
        forall|b: int|
            #[trigger] bwr_run(idx - 1, idx + 1, 0, n - 1).contains(b) <==> (idx - 1 <= b <= idx
                + 1 && 0 <= b <= n - 1),
        forall|i: int, j: int|
            0 <= i < j < bwr_run(idx - 1, idx + 1, 0, n - 1).len() ==> #[trigger] bwr_run(
                idx - 1,
                idx + 1,
                0,
                n - 1,
            )[i] < #[trigger] bwr_run(idx - 1, idx + 1, 0, n - 1)[j],
        idx + 1 > n - 1 ==> bwr_seq(idx - 1, idx + 1, 0, n - 1, true) == seq![0int] + bwr_run(
            idx - 1,
            idx + 1,
            0,
            n - 1,
        ) + (if idx - 1 < 0 {
            seq![n - 1]
        } else {
            Seq::<int>::empty()
        }),
        idx - 1 >= 0 && idx + 1 <= n - 1 ==> bwr_seq(idx - 1, idx + 1, 0, n - 1, true) == bwr_run(
            idx - 1,
            idx + 1,
            0,
            n - 1,
        ) + (if idx + 1 > n - 1 {
            seq![0int]
        } else {
            Seq::<int>::empty()
        }),
{
    let run = bwr_run(idx - 1, idx + 1, 0, n - 1);
    let lo = if idx - 1 > 0 {
        idx - 1
    } else {
        0
    };
    assert(bwr_seq(idx - 1, idx + 1, 0, n - 1, false) =~= run);
    assert forall|b: int| #[trigger] run.contains(b) implies (idx - 1 <= b <= idx + 1 && 0 <= b <= n
        - 1) by {
        let i = choose|i: int| 0 <= i < run.len() && run[i] == b;
    }
    assert forall|b: int| (idx - 1 <= b <= idx + 1 && 0 <= b <= n - 1) implies #[trigger] run
        .contains(b) by {
        assert(run[b - lo] == b);
    }
    if idx + 1 > n - 1 {
        assert(bwr_seq(idx - 1, idx + 1, 0, n - 1, true) =~= seq![0int] + run + (if idx - 1 < 0 {
            seq![n - 1]
        } else {
            Seq::<int>::empty()
        }));
    }
    if idx - 1 >= 0 && idx + 1 <= n - 1 {
        assert(bwr_seq(idx - 1, idx + 1, 0, n - 1, true) =~= run + Seq::<int>::empty());
        assert(run + Seq::<int>::empty() =~= run);
    }
}

/// Membership in the wrapping window around `a` coincides with the per-axis
/// adjacency relation used by the board.
pub proof fn lemma_bwr_axis_adj(a: int, b: int, n: int, w: bool)
    requires
        1 <= n,
        0 <= a < n,
        0 <= b < n,
    ensures
        crate::coords::axis_adj(a, b, n, w) <==> bwr_seq(a - 1, a + 1, 0, n - 1, w).contains(b),
{
    let s = bwr_seq(a - 1, a + 1, 0, n - 1, w);
    let run = bwr_run(a - 1, a + 1, 0, n - 1);
    let lo = if a - 1 > 0 {
        a - 1
    } else {
        0
    };
    if crate::coords::axis_adj(a, b, n, w) {
        if a - 1 <= b <= a + 1 {
            let off = (if w && a + 1 > n - 1 {
                1int
            } else {
                0int
            });
            assert(run[b - lo] == b);
            assert(s[off + b - lo] == b);
            assert(s.contains(b));
        } else if w && a == n - 1 && b == 0 {
            assert(s[0] == b);
            assert(s.contains(b));
        } else {
            assert(w && a == 0 && b == n - 1);
            assert(s[s.len() - 1] == b);
            assert(s.contains(b));
        }
    }
    if s.contains(b) {
        let i = choose|i: int| 0 <= i < s.len() && s[i] == b;
        assert(crate::coords::axis_adj(a, b, n, w));
    }
}

} // verus!
