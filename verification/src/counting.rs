//! The pigeonhole principle, on which the counting arguments about rows
//! and columns rest.

use vstd::prelude::*;

verus! {

/// More numbers than there are values for them: two of them are equal.
pub proof fn lemma_pigeonhole(s: Seq<int>, m: int)
    requires
        0 <= m < s.len(),
        forall|k: int| 0 <= k < s.len() ==> 0 <= #[trigger] s[k] < m,
    ensures
        exists|i: int, j: int| 0 <= i < j < s.len() && s[i] == s[j],
    decreases s.len(),
{
    let n = s.len() as int;
    let last = s[n - 1];
    assert(0 <= last < m);
    if exists|i: int| 0 <= i < n - 1 && s[i] == last {
        let i = choose|i: int| 0 <= i < n - 1 && s[i] == last;
        assert(0 <= i < n - 1 < s.len() && s[i] == s[n - 1]);
    } else {
        let t = Seq::new(
            (n - 1) as nat,
            |k: int|
                if s[k] > last {
                    s[k] - 1
                } else {
                    s[k]
                },
        );
        assert forall|k: int| 0 <= k < t.len() implies 0 <= #[trigger] t[k] < m - 1 by {
            assert(0 <= s[k] < m);
            assert(s[k] != last);
        }
        lemma_pigeonhole(t, m - 1);
        let (i, j) = choose|i: int, j: int| 0 <= i < j < t.len() && t[i] == t[j];
        assert(s[i] != last && s[j] != last);
        assert(0 <= i < j < s.len() && s[i] == s[j]);
    }
}

} // verus!
