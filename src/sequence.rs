//! The ordering engine: dense 1..N orderings kept as sequences of members,
//! where a member's sequence number is its 1-based rank.

use vstd::prelude::*;
use crate::model::StoreError;
use vstd::set_lib::set_int_range;

verus! {

/// The ordering after the member at index `from` is taken out and put back
/// at index `to` of what remains.
pub open spec fn moved<T>(s: Seq<T>, from: int, to: int) -> Seq<T> {
    s.remove(from).insert(to, s[from])
}

/// `i` is the index of the first occurrence of `x` in `s`.
pub open spec fn first_at(s: Seq<i64>, x: i64, i: int) -> bool {
    &&& 0 <= i < s.len()
    &&& s[i] == x
    &&& forall|j: int| 0 <= j < i ==> s[j] != x
}

/// The largest of the values, or 0 when there are none.
pub open spec fn max_or_zero(s: Seq<i64>) -> int
    decreases s.len(),
{
    if s.len() == 0 {
        0
    } else if s.len() == 1 {
        s[0] as int
    } else {
        let m = max_or_zero(s.drop_last());
        if s.last() > m {
            s.last() as int
        } else {
            m
        }
    }
}

/// Rank (0-based) that the member at rank `k` holds after the member at
/// `from` is moved to `to` by shifting the members in between by one slot.
pub open spec fn shifted_rank(k: int, from: int, to: int) -> int {
    if k == from {
        to
    } else if from < k && k <= to {
        k - 1
    } else if to <= k && k < from {
        k + 1
    } else {
        k
    }
}

/// Index of the first occurrence of `member`, if any.
pub fn position_of(order: &Vec<i64>, member: i64) -> (r: Option<usize>)
    ensures
        r is Some ==> first_at(order@, member, r->Some_0 as int),
        r is None <==> !order@.contains(member),
{
    let mut i: usize = 0;
    while i < order.len()
        invariant
            i <= order.len(),
            forall|j: int| 0 <= j < i ==> order@[j] != member,
        decreases order.len() - i,
    {
        if order[i] == member {
            return Some(i);
        }
        i = i + 1;
    }
    None
}

/// A copy of `order`.
pub fn copy_order(order: &Vec<i64>) -> (r: Vec<i64>)
    ensures
        r@ == order@,
{
    let mut out: Vec<i64> = Vec::new();
    let mut k: usize = 0;
    while k < order.len()
        invariant
            k <= order.len(),
            out@ == order@.subrange(0, k as int),
        decreases order.len() - k,
    {
        out.push(order[k]);
        k = k + 1;
        proof {
            assert(out@ =~= order@.subrange(0, k as int));
        }
    }
    assert(out@ =~= order@);
    out
}

/// Moves the entry at `from` to index `to`, shifting the entries in between
/// by one slot and keeping every other entry's relative order.
pub fn move_entry<T>(v: &mut Vec<T>, from: usize, to: usize)
    requires
        from < old(v).len(),
        to < old(v).len(),
    ensures
        final(v)@ == moved(old(v)@, from as int, to as int),
{
    let x = v.remove(from);
    v.insert(to, x);
}

/// Repositions `member` to the 1-based `target` within `order`, returning the
/// new ordering. Fails with `NotFound` when `member` is absent and with
/// `InvalidPosition` when `target` is outside `1..=N`; the input is unchanged.
pub fn move_member(order: &Vec<i64>, member: i64, target: i64) -> (r: Result<Vec<i64>, StoreError>)
    ensures
        !order@.contains(member) ==> r == Err::<Vec<i64>, StoreError>(StoreError::NotFound),
        order@.contains(member) && !(1 <= target <= order@.len()) ==> r == Err::<
            Vec<i64>,
            StoreError,
        >(StoreError::InvalidPosition),
        order@.contains(member) && 1 <= target <= order@.len() ==> r is Ok && exists|i: int|
            first_at(order@, member, i) && r->Ok_0@ == moved(order@, i, target - 1),
{
    match position_of(order, member) {
        None => Err(StoreError::NotFound),
        Some(i) => {
            if target < 1 || target as u64 > order.len() as u64 {
                Err(StoreError::InvalidPosition)
            } else {
                let mut out = copy_order(order);
                move_entry(&mut out, i, (target - 1) as usize);
                Ok(out)
            }
        },
    }
}

/// Takes `member` out of `order`; the members after it move up one rank,
/// so no gap is left. Fails with `NotFound` when `member` is absent.
pub fn remove_member(order: &Vec<i64>, member: i64) -> (r: Result<Vec<i64>, StoreError>)
    ensures
        !order@.contains(member) ==> r == Err::<Vec<i64>, StoreError>(StoreError::NotFound),
        order@.contains(member) ==> r is Ok && exists|i: int|
            first_at(order@, member, i) && r->Ok_0@ == order@.remove(i),
{
    match position_of(order, member) {
        None => Err(StoreError::NotFound),
        Some(i) => {
            let mut out = copy_order(order);
            out.remove(i);
            Ok(out)
        },
    }
}

/// The sequence number that an appended member receives: the largest
/// present value plus one (1 for an empty scope), or `None` where that
/// would not fit in an `i64`.
pub fn next_sequence(seqs: &Vec<i64>) -> (r: Option<i64>)
    ensures
        max_or_zero(seqs@) < i64::MAX ==> r == Some((max_or_zero(seqs@) + 1) as i64),
        max_or_zero(seqs@) >= i64::MAX ==> r is None,
{
    let mut m: i64 = 0;
    let mut k: usize = 0;
    while k < seqs.len()
        invariant
            k <= seqs.len(),
            m == max_or_zero(seqs@.subrange(0, k as int)),
        decreases seqs.len() - k,
    {
        proof {
            let t = seqs@.subrange(0, k as int + 1);
            assert(t.drop_last() =~= seqs@.subrange(0, k as int));
        }
        if k == 0 || seqs[k] > m {
            m = seqs[k];
        }
        k = k + 1;
    }
    assert(seqs@.subrange(0, seqs@.len() as int) =~= seqs@);
    if m == i64::MAX {
        None
    } else {
        Some(m + 1)
    }
}

/// The writes that renumber `order` collision-free: first every member gets
/// its negated 1-based rank, then its positive 1-based rank. Each write is
/// `(member, value)`.
pub fn two_phase_writes(order: &Vec<i64>) -> (r: Vec<(i64, i64)>)
    requires
        order@.len() < i64::MAX,
    ensures
        r@.len() == 2 * order@.len(),
        forall|i: int| 0 <= i < order@.len() ==> r@[i].0 == order@[i] && r@[i].1 == -(i + 1),
        forall|i: int|
            order@.len() <= i < r@.len() ==> r@[i].0 == order@[i - order@.len()] && r@[i].1 == i
                - order@.len() + 1,
{
    let n = order.len();
    let mut r: Vec<(i64, i64)> = Vec::new();
    let mut k: usize = 0;
    while k < n
        invariant
            n == order@.len(),
            n < i64::MAX,
            k <= n,
            r@.len() == k,
            forall|i: int| 0 <= i < k ==> r@[i].0 == order@[i] && r@[i].1 == -(i + 1),
        decreases n - k,
    {
        let ghost prev = r@;
        r.push((order[k], -((k as i64) + 1)));
        proof {
            assert forall|i: int| 0 <= i < k + 1 implies r@[i].0 == order@[i] && r@[i].1 == -(i
                + 1) by {
                if i < k {
                    assert(r@[i] == prev[i]);
                }
            }
        }
        k = k + 1;
    }
    let mut k: usize = 0;
    while k < n
        invariant
            n == order@.len(),
            n < i64::MAX,
            k <= n,
            r@.len() == n + k,
            forall|i: int| 0 <= i < n ==> r@[i].0 == order@[i] && r@[i].1 == -(i + 1),
            forall|i: int| n <= i < n + k ==> r@[i].0 == order@[i - n] && r@[i].1 == i - n + 1,
        decreases n - k,
    {
        r.push((order[k], (k as i64) + 1));
        k = k + 1;
    }
    r
}

/// Moving a member to the position it already holds changes nothing.
pub proof fn lemma_move_in_place<T>(s: Seq<T>, i: int)
    requires
        0 <= i < s.len(),
    ensures
        moved(s, i, i) == s,
{
    assert(moved(s, i, i) =~= s);
}

/// A move keeps the number of members and puts the moved member at the
/// target.
pub proof fn lemma_move_target<T>(s: Seq<T>, from: int, to: int)
    requires
        0 <= from < s.len(),
        0 <= to < s.len(),
    ensures
        moved(s, from, to).len() == s.len(),
        moved(s, from, to)[to] == s[from],
{
}

/// A move keeps every other member's relative order: taking the moved
/// member out again gives what taking it out of the original gives.
pub proof fn lemma_move_keeps_others<T>(s: Seq<T>, from: int, to: int)
    requires
        0 <= from < s.len(),
        0 <= to < s.len(),
    ensures
        moved(s, from, to).remove(to) == s.remove(from),
{
    assert(moved(s, from, to).remove(to) =~= s.remove(from));
}

/// The shift strategy and the remove-and-reinsert strategy agree: the
/// member at rank `k` before the move stands at `shifted_rank(k, from, to)`
/// after it.
pub proof fn lemma_shift_agrees<T>(s: Seq<T>, from: int, to: int)
    requires
        0 <= from < s.len(),
        0 <= to < s.len(),
    ensures
        forall|k: int|
            0 <= k < s.len() ==> 0 <= #[trigger] shifted_rank(k, from, to) < s.len()
                && moved(s, from, to)[shifted_rank(k, from, to)] == s[k],
{
}

/// A move keeps the members distinct where they were.
pub proof fn lemma_move_no_duplicates(s: Seq<i64>, from: int, to: int)
    requires
        0 <= from < s.len(),
        0 <= to < s.len(),
        s.no_duplicates(),
    ensures
        moved(s, from, to).no_duplicates(),
        moved(s, from, to).to_set() == s.to_set(),
{
    let m = moved(s, from, to);
    lemma_shift_agrees(s, from, to);
    assert forall|a: int, b: int| 0 <= a < m.len() && 0 <= b < m.len() && a != b implies m[a]
        != m[b] by {
        let ka = if a == to { from } else if from < to && from <= a && a < to { a + 1 } else if to
            < from && to < a && a <= from { a - 1 } else { a };
        let kb = if b == to { from } else if from < to && from <= b && b < to { b + 1 } else if to
            < from && to < b && b <= from { b - 1 } else { b };
        assert(shifted_rank(ka, from, to) == a);
        assert(shifted_rank(kb, from, to) == b);
    }
    assert forall|x: i64| m.contains(x) <==> s.contains(x) by {
        if s.contains(x) {
            let k = choose|k: int| 0 <= k < s.len() && s[k] == x;
            assert(m[shifted_rank(k, from, to)] == x);
        }
        if m.contains(x) {
            let a = choose|a: int| 0 <= a < m.len() && m[a] == x;
            let ka = if a == to { from } else if from < to && from <= a && a < to { a + 1 } else if to
                < from && to < a && a <= from { a - 1 } else { a };
            assert(shifted_rank(ka, from, to) == a);
        }
    }
    assert(m.to_set() =~= s.to_set());
}

/// The member found at index `a` after a move stood at some index before it.
pub proof fn lemma_moved_from<T>(s: Seq<T>, from: int, to: int, a: int) -> (k: int)
    requires
        0 <= from < s.len(),
        0 <= to < s.len(),
        0 <= a < s.len(),
    ensures
        0 <= k < s.len(),
        moved(s, from, to)[a] == s[k],
{
    lemma_shift_agrees(s, from, to);
    let k = if a == to {
        from
    } else if from < to && from <= a && a < to {
        a + 1
    } else if to < from && to < a && a <= from {
        a - 1
    } else {
        a
    };
    assert(shifted_rank(k, from, to) == a);
    k
}

/// Taking a member out keeps the others distinct.
pub proof fn lemma_remove_no_duplicates(s: Seq<i64>, i: int)
    requires
        0 <= i < s.len(),
        s.no_duplicates(),
    ensures
        s.remove(i).no_duplicates(),
        forall|x: i64| s.remove(i).contains(x) <==> (s.contains(x) && x != s[i]),
{
    let r = s.remove(i);
    assert forall|a: int, b: int| 0 <= a < r.len() && 0 <= b < r.len() && a != b implies r[a]
        != r[b] by {
        let ka = if a < i { a } else { a + 1 };
        let kb = if b < i { b } else { b + 1 };
        assert(r[a] == s[ka] && r[b] == s[kb]);
    }
    assert forall|x: i64| r.contains(x) <==> (s.contains(x) && x != s[i]) by {
        if r.contains(x) {
            let a = choose|a: int| 0 <= a < r.len() && r[a] == x;
            let ka = if a < i { a } else { a + 1 };
            assert(s[ka] == x);
        }
        if s.contains(x) && x != s[i] {
            let k = choose|k: int| 0 <= k < s.len() && s[k] == x;
            let a = if k < i { k } else { k - 1 };
            assert(r[a] == x);
        }
    }
}

/// `s` without its first occurrence of `x`; `s` itself where `x` is absent.
pub open spec fn drop_member(s: Seq<i64>, x: i64) -> Seq<i64> {
    if s.contains(x) {
        s.remove(choose|i: int| first_at(s, x, i))
    } else {
        s
    }
}

/// The first occurrence is unique.
pub proof fn lemma_first_at_unique(s: Seq<i64>, x: i64, i: int, j: int)
    requires
        first_at(s, x, i),
        first_at(s, x, j),
    ensures
        i == j,
{
}

/// A present member has a first occurrence.
pub proof fn lemma_first_at_exists(s: Seq<i64>, x: i64) -> (i: int)
    requires
        s.contains(x),
    ensures
        first_at(s, x, i),
    decreases s.len(),
{
    if s[0] == x {
        0
    } else {
        let t = s.subrange(1, s.len() as int);
        let k = choose|k: int| 0 <= k < s.len() && s[k] == x;
        assert(t[k - 1] == x);
        let j = lemma_first_at_exists(t, x);
        assert forall|m: int| 0 <= m < j + 1 implies s[m] != x by {
            if m > 0 {
                assert(s[m] == t[m - 1]);
            }
        }
        j + 1
    }
}

/// `order` without `member`; unchanged where `member` is absent.
pub fn without_member(order: &Vec<i64>, member: i64) -> (r: Vec<i64>)
    ensures
        r@ == drop_member(order@, member),
{
    match remove_member(order, member) {
        Ok(v) => {
            proof {
                let i = choose|i: int| first_at(order@, member, i) && v@ == order@.remove(i);
                let c = choose|c: int| first_at(order@, member, c);
                lemma_first_at_unique(order@, member, i, c);
            }
            v
        },
        Err(_) => {
            let out = copy_order(order);
            out
        },
    }
}

/// Dropping a member keeps the others distinct and present.
pub proof fn lemma_drop_member(s: Seq<i64>, x: i64)
    requires
        s.no_duplicates(),
    ensures
        drop_member(s, x).no_duplicates(),
        !drop_member(s, x).contains(x),
        forall|y: i64| y != x ==> (drop_member(s, x).contains(y) <==> s.contains(y)),
        drop_member(s, x).len() <= s.len(),
        s.contains(x) ==> drop_member(s, x).len() == s.len() - 1,
{
    if s.contains(x) {
        lemma_first_at_exists(s, x);
        let i = choose|i: int| first_at(s, x, i);
        lemma_remove_no_duplicates(s, i);
    }
}

/// The sequence number of member `m` in the ordering `s`: its 1-based rank.
pub open spec fn rank_of(s: Seq<i64>, m: i64) -> int {
    (choose|i: int| first_at(s, m, i)) + 1
}

/// The sequence numbers of the members of `s` are exactly `1..=N`, one for
/// each member.
pub open spec fn dense(s: Seq<i64>) -> bool {
    &&& Set::new(|q: int| exists|m: i64| s.contains(m) && rank_of(s, m) == q) == set_int_range(
        1,
        s.len() as int + 1,
    )
    &&& forall|a: i64, b: i64|
        s.contains(a) && s.contains(b) && a != b ==> rank_of(s, a) != rank_of(s, b)
}

/// In an ordering without repeated members, member `s[i]` has sequence
/// number `i + 1`.
pub proof fn lemma_rank_at(s: Seq<i64>, i: int)
    requires
        s.no_duplicates(),
        0 <= i < s.len(),
    ensures
        rank_of(s, s[i]) == i + 1,
{
    assert(first_at(s, s[i], i));
    let c = choose|c: int| first_at(s, s[i], c);
    lemma_first_at_unique(s, s[i], i, c);
}

/// Density: an ordering without repeated members numbers them `1..=N`
/// with no gap and no number used twice.
pub proof fn lemma_dense(s: Seq<i64>)
    requires
        s.no_duplicates(),
    ensures
        dense(s),
{
    let got = Set::new(|q: int| exists|m: i64| s.contains(m) && rank_of(s, m) == q);
    assert forall|q: int| got.contains(q) <==> set_int_range(1, s.len() as int + 1).contains(q) by {
        if 1 <= q <= s.len() {
            lemma_rank_at(s, q - 1);
            assert(s.contains(s[q - 1]));
        }
        if got.contains(q) {
            let m = choose|m: i64| s.contains(m) && rank_of(s, m) == q;
            let i = lemma_first_at_exists(s, m);
            lemma_rank_at(s, i);
        }
    }
    assert(got =~= set_int_range(1, s.len() as int + 1));
    assert forall|a: i64, b: i64| s.contains(a) && s.contains(b) && a != b implies rank_of(s, a)
        != rank_of(s, b) by {
        let i = lemma_first_at_exists(s, a);
        let j = lemma_first_at_exists(s, b);
        lemma_rank_at(s, i);
        lemma_rank_at(s, j);
    }
}

/// Appending a new member gives it sequence number `N + 1` and leaves every
/// other member's number as it was; so members created one after another
/// are numbered `1..=N` in creation order.
pub proof fn lemma_append_rank(s: Seq<i64>, m: i64)
    requires
        s.no_duplicates(),
        !s.contains(m),
    ensures
        s.push(m).no_duplicates(),
        rank_of(s.push(m), m) == s.len() + 1,
        forall|x: i64| s.contains(x) ==> rank_of(s.push(m), x) == rank_of(s, x),
{
    let t = s.push(m);
    assert forall|a: int, b: int| 0 <= a < t.len() && 0 <= b < t.len() && a != b implies t[a]
        != t[b] by {
        if a < s.len() && b < s.len() {
        } else if a < s.len() {
            assert(s.contains(t[a]));
        } else if b < s.len() {
            assert(s.contains(t[b]));
        }
    }
    lemma_rank_at(t, s.len() as int);
    assert forall|x: i64| s.contains(x) implies rank_of(t, x) == rank_of(s, x) by {
        let i = lemma_first_at_exists(s, x);
        lemma_rank_at(s, i);
        assert(t[i] == x);
        lemma_rank_at(t, i);
    }
}

/// Moving a member to the position it holds keeps every sequence number.
pub proof fn lemma_move_to_own_rank(s: Seq<i64>, m: i64)
    requires
        s.no_duplicates(),
        s.contains(m),
    ensures
        moved(s, rank_of(s, m) - 1, rank_of(s, m) - 1) == s,
{
    let i = lemma_first_at_exists(s, m);
    lemma_rank_at(s, i);
    lemma_move_in_place(s, i);
}

/// Linking a member again leaves it once in the ordering, at the end, and
/// not among the detached ones.
pub proof fn lemma_relink_once(ordered: Seq<i64>, detached: Seq<i64>, m: i64)
    requires
        ordered.no_duplicates(),
        detached.no_duplicates(),
    ensures
        drop_member(ordered, m).push(m).no_duplicates(),
        rank_of(drop_member(ordered, m).push(m), m) == drop_member(ordered, m).len() + 1,
        !drop_member(detached, m).contains(m),
{
    lemma_drop_member(ordered, m);
    lemma_drop_member(detached, m);
    lemma_append_rank(drop_member(ordered, m), m);
}

/// The sequence values of the `n` members of an ordering after the first `k`
/// writes of phase one, which started from the values `start`.
pub open spec fn phase_one_state(start: Seq<i64>, k: int) -> Seq<int> {
    Seq::new(start.len(), |i: int| if i < k { -(i + 1) } else { start[i] as int })
}

/// The sequence values of `n` members after phase one and the first `k`
/// writes of phase two.
pub open spec fn phase_two_state(n: nat, k: int) -> Seq<int> {
    Seq::new(n, |i: int| if i < k { i + 1 } else { -(i + 1) })
}

/// The two-phase renumbering never holds two members at one value: starting
/// from distinct positive values, every state after each single write of
/// either phase has distinct values, and the last state is the ranks `1..=N`.
pub proof fn lemma_two_phase_no_collision(start: Seq<i64>, k: int)
    requires
        start.no_duplicates(),
        forall|i: int| 0 <= i < start.len() ==> start[i] > 0,
        0 <= k <= start.len(),
    ensures
        phase_one_state(start, k).no_duplicates(),
        phase_two_state(start.len(), k).no_duplicates(),
        forall|i: int|
            0 <= i < start.len() ==> #[trigger] phase_two_state(start.len(), start.len() as int)[i]
                == i + 1,
{
    let a = phase_one_state(start, k);
    assert forall|x: int, y: int| 0 <= x < a.len() && 0 <= y < a.len() && x != y implies a[x]
        != a[y] by {
        if x >= k && y >= k {
            assert(start[x] != start[y]);
        }
    }
    let b = phase_two_state(start.len(), k);
    assert forall|x: int, y: int| 0 <= x < b.len() && 0 <= y < b.len() && x != y implies b[x]
        != b[y] by {
    }
}

/// Re-links `member` at the end of `order`: any earlier position it held is
/// given up, the members after it move up one rank, and it takes the last
/// rank. Returns the new ordering and the sequence number it assigns.
pub fn relink_member(order: &Vec<i64>, member: i64) -> (r: (Vec<i64>, i64))
    requires
        order@.len() < i64::MAX,
    ensures
        r.0@ == drop_member(order@, member).push(member),
        r.1 == drop_member(order@, member).len() + 1,
        order@.no_duplicates() ==> r.0@.no_duplicates() && rank_of(r.0@, member) == r.1,
{
    let mut out = without_member(order, member);
    proof {
        if order@.contains(member) {
            lemma_first_at_exists(order@, member);
        }
    }
    assert(out@.len() <= order@.len());
    out.push(member);
    let seq = out.len() as i64;
    proof {
        if order@.no_duplicates() {
            lemma_drop_member(order@, member);
            lemma_append_rank(drop_member(order@, member), member);
        }
    }
    (out, seq)
}

} // verus!
