//! The self-pairing reducer and the pair assembler.
//!
//! A draw sequence of even length is read as consecutive pairs
//! `(data[2k], data[2k+1])`. The reducer breaks up pairs whose two draws
//! name the same member by swapping draws between pair slots; it changes
//! which draws are paired together, never the multiset of draws, so the
//! marginal sampling distribution of the members is untouched. The whole
//! greedy pass is mirrored by the spec function [`reduce_spec`], which
//! the executable reducer is proved to compute exactly: the re-pairing
//! is a deterministic function of the draws, it never creates a
//! self-pair, and it leaves a sequence without self-pairs alone.

use vstd::prelude::*;

use vstd::seq_lib::group_to_multiset_ensures;
use vstd::seq_lib::to_multiset_update;

verus! {

/// The length is a whole number of pairs.
pub fn is_even(x: usize) -> (r: bool)
    ensures
        r == (x % 2 == 0),
{
    x % 2 == 0
}

/// Pair slot `k` of `data` pairs a member with itself.
pub open spec fn is_self_pair(data: Seq<usize>, k: int) -> bool {
    data[2 * k] == data[2 * k + 1]
}

/// How many of the first `k` pair slots of `data` are self-pairs.
pub open spec fn self_pairs_upto(data: Seq<usize>, k: int) -> int
    decreases k,
{
    if k <= 0 {
        0
    } else {
        self_pairs_upto(data, k - 1) + if is_self_pair(data, k - 1) {
            1int
        } else {
            0int
        }
    }
}

/// How many pair slots of `data` are self-pairs.
pub open spec fn self_pair_count(data: Seq<usize>) -> int {
    self_pairs_upto(data, data.len() as int / 2)
}

/// The first even position in `[from, until)` whose slot holds `value`
/// in neither of its two draws.
pub open spec fn search_avoiding(data: Seq<usize>, value: usize, from: int, until: int) -> Option<
    int,
>
    decreases until - from,
{
    if from + 2 > until {
        None
    } else if data[from] != value && data[from + 1] != value {
        Some(from)
    } else {
        search_avoiding(data, value, from + 2, until)
    }
}

/// The position the reducer swaps with for the self-pair at `cursor`:
/// the first avoiding slot forward of it, or, failing that, the first
/// avoiding slot from the front of the sequence.
pub open spec fn find_swap_spec(data: Seq<usize>, value: usize, cursor: int) -> Option<int> {
    match search_avoiding(data, value, cursor + 2, data.len() as int) {
        Some(s) => Some(s),
        None => search_avoiding(data, value, 0, cursor),
    }
}

/// One greedy step at position `cursor`: where the slot is a self-pair
/// and some slot can absorb it, the two first draws are exchanged;
/// otherwise the sequence is left alone. The bounds test on the found
/// slot keeps the step length-preserving on any input; for an in-range
/// even `cursor` the search only ever lands in range, so it never bites.
pub open spec fn reduce_step(data: Seq<usize>, cursor: int) -> Seq<usize> {
    if data[cursor] == data[cursor + 1] {
        match find_swap_spec(data, data[cursor], cursor) {
            Some(s) => if 0 <= s < data.len() && 0 <= cursor < data.len() {
                data.update(cursor, data[s]).update(s, data[cursor])
            } else {
                data
            },
            None => data,
        }
    } else {
        data
    }
}

/// The reducer's greedy pass from position `cursor` to the end.
pub open spec fn reduce_from(data: Seq<usize>, cursor: int) -> Seq<usize>
    decreases data.len() - cursor,
    via reduce_from_decreases
{
    if cursor < 0 || cursor + 2 > data.len() {
        data
    } else {
        reduce_from(reduce_step(data, cursor), cursor + 2)
    }
}

#[via_fn]
proof fn reduce_from_decreases(data: Seq<usize>, cursor: int) {
    if !(cursor < 0 || cursor + 2 > data.len()) {
        assert(reduce_step(data, cursor).len() == data.len());
    }
}

/// What the reducer leaves behind: the whole greedy pass over the draws.
pub open spec fn reduce_spec(data: Seq<usize>) -> Seq<usize> {
    reduce_from(data, 0)
}

/// Swapping two positions of a sequence leaves its multiset unchanged.
proof fn lemma_swap_preserves_multiset(s: Seq<usize>, i: int, j: int)
    requires
        0 <= i < s.len(),
        0 <= j < s.len(),
    ensures
        s.update(i, s[j]).update(j, s[i]).to_multiset() == s.to_multiset(),
{
    broadcast use group_to_multiset_ensures, to_multiset_update;

    if i == j {
        assert(s.update(i, s[j]).update(j, s[i]) =~= s);
    } else {
        let s1 = s.update(i, s[j]);
        let s2 = s1.update(j, s[i]);
        assert(s1[j] == s[j]);
        assert(s.to_multiset().contains(s[i])) by {
            assert(s.contains(s[i]));
        }
        assert(s2.to_multiset() =~= s.to_multiset());
    }
}

/// A found avoiding slot lies in the searched range, on an even
/// position, and avoids the value; when none is found, every even
/// position of the range is blocked.
proof fn lemma_search_avoiding_sound(data: Seq<usize>, value: usize, from: int, until: int)
    requires
        from % 2 == 0,
        0 <= from,
    ensures
        match search_avoiding(data, value, from, until) {
            Some(s) => {
                &&& from <= s
                &&& s + 2 <= until
                &&& s % 2 == 0
                &&& data[s] != value
                &&& data[s + 1] != value
            },
            None => forall|t: int|
                from <= t < until && t % 2 == 0 && t + 2 <= until ==> (#[trigger] data[t]) == value
                    || data[t + 1] == value,
        },
    decreases until - from,
{
    if from + 2 <= until && !(data[from] != value && data[from + 1] != value) {
        lemma_search_avoiding_sound(data, value, from + 2, until);
    }
}

/// Whatever [`find_swap_spec`] finds is an even slot other than
/// `cursor`, inside the sequence, avoiding the value; when it finds
/// nothing, every other slot touches the value.
proof fn lemma_find_swap_spec_sound(data: Seq<usize>, value: usize, cursor: int)
    requires
        data.len() % 2 == 0,
        cursor % 2 == 0,
        0 <= cursor,
        cursor + 2 <= data.len(),
    ensures
        match find_swap_spec(data, value, cursor) {
            Some(s) => {
                &&& 0 <= s
                &&& s + 2 <= data.len()
                &&& s % 2 == 0
                &&& s != cursor
                &&& data[s] != value
                &&& data[s + 1] != value
            },
            None => forall|t: int|
                0 <= t < data.len() && t % 2 == 0 && t != cursor ==> (#[trigger] data[t]) == value
                    || data[t + 1] == value,
        },
{
    lemma_search_avoiding_sound(data, value, cursor + 2, data.len() as int);
    lemma_search_avoiding_sound(data, value, 0, cursor);
}

/// Where every self-paired slot of `d2` is self-paired in `d1` too, `d2`
/// has no more self-pairs among the first `k` slots.
proof fn lemma_self_pairs_le(d1: Seq<usize>, d2: Seq<usize>, k: int)
    requires
        forall|j: int| 0 <= j < k && (#[trigger] is_self_pair(d2, j)) ==> is_self_pair(d1, j),
    ensures
        self_pairs_upto(d2, k) <= self_pairs_upto(d1, k),
    decreases k,
{
    if k > 0 {
        lemma_self_pairs_le(d1, d2, k - 1);
    }
}

/// A sequence whose first `k` slots are all clean has no self-pairs
/// among them.
proof fn lemma_self_pairs_zero(data: Seq<usize>, k: int)
    requires
        forall|j: int| 0 <= j < k ==> !(#[trigger] is_self_pair(data, j)),
    ensures
        self_pairs_upto(data, k) == 0,
    decreases k,
{
    if k > 0 {
        lemma_self_pairs_zero(data, k - 1);
    }
}

/// One greedy step keeps the length and never increases the number of
/// self-pairs: a swap is only taken with a slot avoiding the value, so
/// the self-pair at `cursor` is broken and the partner slot stays clean.
proof fn lemma_reduce_step_self_pairs(data: Seq<usize>, cursor: int)
    requires
        data.len() % 2 == 0,
        cursor % 2 == 0,
        0 <= cursor,
        cursor + 2 <= data.len(),
    ensures
        reduce_step(data, cursor).len() == data.len(),
        self_pair_count(reduce_step(data, cursor)) <= self_pair_count(data),
{
    let next = reduce_step(data, cursor);
    if data[cursor] == data[cursor + 1] {
        let value = data[cursor];
        lemma_find_swap_spec_sound(data, value, cursor);
        match find_swap_spec(data, value, cursor) {
            Some(s) => {
                assert forall|j: int|
                    0 <= j < data.len() / 2 && (#[trigger] is_self_pair(next, j)) implies is_self_pair(
                    data,
                    j,
                ) by {
                    if j == cursor / 2 {
                        assert(next[cursor] == data[s] && next[cursor + 1] == data[cursor + 1]);
                        assert(false);
                    } else if j == s / 2 {
                        assert(next[s] == value && next[s + 1] == data[s + 1]);
                        assert(false);
                    } else {
                        assert(next[2 * j] == data[2 * j] && next[2 * j + 1] == data[2 * j + 1]);
                    }
                }
                lemma_self_pairs_le(data, next, data.len() as int / 2);
            },
            None => {},
        }
    }
}

/// The greedy pass keeps the length of the draw sequence.
pub proof fn lemma_reduce_from_len(data: Seq<usize>, cursor: int)
    ensures
        reduce_from(data, cursor).len() == data.len(),
    decreases data.len() - cursor,
{
    if !(cursor < 0 || cursor + 2 > data.len()) {
        lemma_reduce_from_len(reduce_step(data, cursor), cursor + 2);
    }
}

proof fn lemma_reduce_from_self_pairs(data: Seq<usize>, cursor: int)
    requires
        data.len() % 2 == 0,
        cursor % 2 == 0,
        0 <= cursor,
    ensures
        self_pair_count(reduce_from(data, cursor)) <= self_pair_count(data),
    decreases data.len() - cursor,
{
    if cursor + 2 <= data.len() {
        lemma_reduce_step_self_pairs(data, cursor);
        lemma_reduce_from_self_pairs(reduce_step(data, cursor), cursor + 2);
    }
}

/// The reducer never creates a self-pair: the pass leaves at most as
/// many self-paired slots as the draw sequence came with.
pub proof fn reducer_never_adds_self_pairs(data: Seq<usize>)
    requires
        data.len() % 2 == 0,
    ensures
        self_pair_count(reduce_spec(data)) <= self_pair_count(data),
{
    lemma_reduce_from_self_pairs(data, 0);
}

proof fn lemma_reduce_from_clean(data: Seq<usize>, cursor: int)
    requires
        data.len() % 2 == 0,
        cursor % 2 == 0,
        0 <= cursor,
        forall|j: int| cursor / 2 <= j < data.len() / 2 ==> !(#[trigger] is_self_pair(data, j)),
    ensures
        reduce_from(data, cursor) == data,
    decreases data.len() - cursor,
{
    if cursor + 2 <= data.len() {
        assert(!is_self_pair(data, cursor / 2));
        assert(reduce_step(data, cursor) == data);
        lemma_reduce_from_clean(data, cursor + 2);
    }
}

/// A draw sequence without self-pairs passes through the reducer
/// unchanged: the pass is a no-op when there is nothing to break up.
pub proof fn reducer_no_op_without_self_pairs(data: Seq<usize>)
    requires
        data.len() % 2 == 0,
        forall|j: int| 0 <= j < data.len() / 2 ==> !(#[trigger] is_self_pair(data, j)),
    ensures
        reduce_spec(data) == data,
{
    lemma_reduce_from_clean(data, 0);
}

proof fn lemma_reduce_from_uniform(data: Seq<usize>, cursor: int)
    requires
        data.len() % 2 == 0,
        cursor % 2 == 0,
        0 <= cursor,
        forall|i: int| 0 <= i < data.len() ==> #[trigger] data[i] == data[0],
    ensures
        reduce_from(data, cursor) == data,
    decreases data.len() - cursor,
{
    if cursor + 2 <= data.len() {
        if data[cursor] == data[cursor + 1] {
            lemma_find_swap_spec_sound(data, data[cursor], cursor);
            match find_swap_spec(data, data[cursor], cursor) {
                Some(s) => {
                    assert(data[s] == data[0] && data[cursor] == data[0]);
                    assert(false);
                },
                None => {},
            }
        }
        assert(reduce_step(data, cursor) == data);
        lemma_reduce_from_uniform(data, cursor + 2);
    }
}

/// With every draw naming the same member (a population of one), no slot
/// can absorb anything: the pass tolerates the situation as a no-op.
pub proof fn reducer_no_op_when_uniform(data: Seq<usize>)
    requires
        data.len() % 2 == 0,
        forall|i: int| 0 <= i < data.len() ==> #[trigger] data[i] == data[0],
    ensures
        reduce_spec(data) == data,
{
    lemma_reduce_from_uniform(data, 0);
}

/// A lone self-pair is always broken when any slot avoids its value:
/// the pass ends with no self-pair at all.
pub proof fn reducer_resolves_lone_self_pair(data: Seq<usize>, k0: int)
    requires
        data.len() % 2 == 0,
        0 <= k0 < data.len() / 2,
        is_self_pair(data, k0),
        forall|j: int| 0 <= j < data.len() / 2 && j != k0 ==> !(#[trigger] is_self_pair(data, j)),
        exists|j: int|
            0 <= j < data.len() / 2 && j != k0 && (#[trigger] data[2 * j]) != data[2 * k0] && data[2
                * j + 1] != data[2 * k0],
    ensures
        self_pair_count(reduce_spec(data)) == 0,
{
    let cursor = 2 * k0;
    let value = data[cursor];
    lemma_reduce_from_until(data, 0, cursor);
    lemma_find_swap_spec_sound(data, value, cursor);
    let j = choose|j: int|
        0 <= j < data.len() / 2 && j != k0 && (#[trigger] data[2 * j]) != data[2 * k0] && data[2 * j
            + 1] != data[2 * k0];
    match find_swap_spec(data, value, cursor) {
        Some(s) => {
            let next = reduce_step(data, cursor);
            assert(next == data.update(cursor, data[s]).update(s, value));
            assert forall|q: int| 0 <= q < next.len() / 2 implies !(#[trigger] is_self_pair(
                next,
                q,
            )) by {
                if q == k0 {
                    assert(next[cursor] == data[s] && next[cursor + 1] == data[cursor + 1]);
                } else if q == s / 2 {
                    assert(next[s] == value && next[s + 1] == data[s + 1]);
                } else {
                    assert(next[2 * q] == data[2 * q] && next[2 * q + 1] == data[2 * q + 1]);
                    assert(!is_self_pair(data, q));
                }
            }
            lemma_reduce_from_clean(next, cursor + 2);
            lemma_self_pairs_zero(next, next.len() as int / 2);
            assert(reduce_spec(data) == next);
        },
        None => {
            // The avoiding slot the hypothesis names would have been
            // found by one of the two searches.
            assert(data[2 * j] == value || data[2 * j + 1] == value);
            assert(false);
        },
    }
}

/// Where no slot in `[cursor/2, target/2)` is a self-pair, the pass
/// walks over that stretch without changing anything.
proof fn lemma_reduce_from_until(data: Seq<usize>, cursor: int, target: int)
    requires
        data.len() % 2 == 0,
        cursor % 2 == 0,
        target % 2 == 0,
        0 <= cursor <= target <= data.len(),
        forall|j: int| cursor / 2 <= j < target / 2 ==> !(#[trigger] is_self_pair(data, j)),
    ensures
        reduce_from(data, cursor) == reduce_from(data, target),
    decreases target - cursor,
{
    if cursor < target {
        assert(!is_self_pair(data, cursor / 2));
        assert(reduce_step(data, cursor) == data);
        lemma_reduce_from_until(data, cursor + 2, target);
    }
}

/// Searches for a pair slot that can absorb one draw of the self-pair at
/// `cursor`: first forward from the next slot, then wrapping around from
/// the front, exactly one slot visit each. A candidate slot holds `value`
/// in neither of its two positions, so swapping with it creates no new
/// self-pair. When `None` comes back, every other slot touches `value`.
/// The result is exactly what [`find_swap_spec`] names.
fn find_swap(data: &Vec<usize>, value: usize, cursor: usize) -> (r: Option<usize>)
    requires
        data@.len() % 2 == 0,
        cursor < data@.len(),
        cursor % 2 == 0,
    ensures
        match r {
            Some(s) => {
                &&& s < data@.len()
                &&& s % 2 == 0
                &&& s != cursor
                &&& data@[s as int] != value
                &&& data@[s as int + 1] != value
                &&& find_swap_spec(data@, value, cursor as int) == Some(s as int)
            },
            None => {
                &&& forall|t: int|
                    0 <= t < data@.len() && t % 2 == 0 && t != cursor ==> (#[trigger] data@[t])
                        == value || data@[t + 1] == value
                &&& find_swap_spec(data@, value, cursor as int) == None::<int>
            },
        },
{
    let len = data.len();
    let mut s: usize = cursor + 2;
    while s < len
        invariant
            len == data@.len(),
            len % 2 == 0,
            cursor % 2 == 0,
            cursor < len,
            s % 2 == 0,
            cursor + 2 <= s,
            forall|t: int|
                cursor + 2 <= t < s && t % 2 == 0 ==> (#[trigger] data@[t]) == value || data@[t
                    + 1] == value,
            search_avoiding(data@, value, cursor as int + 2, len as int) == search_avoiding(
                data@,
                value,
                s as int,
                len as int,
            ),
        decreases len - s,
    {
        if data[s] != value && data[s + 1] != value {
            proof {
                assert(search_avoiding(data@, value, s as int, len as int) == Some(s as int));
            }
            return Some(s);
        }
        proof {
            assert(search_avoiding(data@, value, s as int, len as int) == search_avoiding(
                data@,
                value,
                s as int + 2,
                len as int,
            ));
        }
        s = s + 2;
    }
    proof {
        assert(search_avoiding(data@, value, s as int, len as int) == None::<int>);
    }
    let mut t: usize = 0;
    while t < cursor
        invariant
            len == data@.len(),
            len % 2 == 0,
            cursor % 2 == 0,
            cursor < len,
            t % 2 == 0,
            t <= cursor,
            forall|q: int|
                cursor + 2 <= q < len && q % 2 == 0 ==> (#[trigger] data@[q]) == value || data@[q
                    + 1] == value,
            forall|q: int|
                0 <= q < t && q % 2 == 0 ==> (#[trigger] data@[q]) == value || data@[q + 1]
                    == value,
            search_avoiding(data@, value, cursor as int + 2, len as int) == None::<int>,
            search_avoiding(data@, value, 0, cursor as int) == search_avoiding(
                data@,
                value,
                t as int,
                cursor as int,
            ),
        decreases cursor - t,
    {
        if data[t] != value && data[t + 1] != value {
            proof {
                assert(search_avoiding(data@, value, t as int, cursor as int) == Some(t as int));
            }
            return Some(t);
        }
        proof {
            assert(search_avoiding(data@, value, t as int, cursor as int) == search_avoiding(
                data@,
                value,
                t as int + 2,
                cursor as int,
            ));
        }
        t = t + 2;
    }
    proof {
        assert(search_avoiding(data@, value, t as int, cursor as int) == None::<int>);
    }
    None
}

/// Greedy single pass over the pair slots: wherever a slot pairs a member
/// with itself, swap its first draw with one from a slot that does not
/// involve that member (searching forward, then wrapping), or leave it
/// as-is when no such slot exists. In place, and the multiset of draws
/// is preserved exactly, so only the pairing changes. The result is
/// exactly [`reduce_spec`] of the input: a deterministic function of the
/// draws alone, which by the laws above never creates a self-pair and
/// leaves a clean or unswappable sequence as it is.
pub fn reduce_repeats(data: &mut Vec<usize>)
    requires
        old(data)@.len() % 2 == 0,
    ensures
        final(data)@.len() == old(data)@.len(),
        final(data)@.to_multiset() == old(data)@.to_multiset(),
        final(data)@ == reduce_spec(old(data)@),
{
    let len = data.len();
    let mut cursor: usize = 0;
    while cursor < len
        invariant
            len == data@.len(),
            len == old(data)@.len(),
            len % 2 == 0,
            cursor % 2 == 0,
            data@.to_multiset() == old(data)@.to_multiset(),
            reduce_from(data@, cursor as int) == reduce_spec(old(data)@),
        decreases len - cursor,
    {
        let ghost at_entry = data@;
        let value = data[cursor];
        if value == data[cursor + 1] {
            match find_swap(data, value, cursor) {
                Some(s) => {
                    let ghost pre = data@;
                    let other = data[s];
                    data[cursor] = other;
                    data[s] = value;
                    proof {
                        lemma_swap_preserves_multiset(pre, cursor as int, s as int);
                        assert(data@ == reduce_step(at_entry, cursor as int));
                    }
                },
                None => {
                    proof {
                        assert(data@ == reduce_step(at_entry, cursor as int));
                    }
                },
            }
        } else {
            proof {
                assert(data@ == reduce_step(at_entry, cursor as int));
            }
        }
        proof {
            assert(reduce_from(at_entry, cursor as int) == reduce_from(
                data@,
                cursor as int + 2,
            ));
        }
        cursor = cursor + 2;
    }
    proof {
        assert(reduce_from(data@, cursor as int) == data@);
    }
}

/// The draw sequence a pair sequence came from, read back by
/// interleaving: position `2k` holds the first draw of pair `k` and
/// position `2k + 1` the second.
pub open spec fn flat_of(pairs: Seq<(usize, usize)>) -> Seq<usize> {
    Seq::new(
        2 * pairs.len(),
        |t: int|
            if t % 2 == 0 {
                pairs[t / 2].0
            } else {
                pairs[t / 2].1
            },
    )
}

/// Runs the reducer over a draw sequence of even length and groups the
/// result into pairs: the flattened pairs are exactly the greedy
/// reduction of the draws — the same multiset, re-paired to break up
/// self-pairs where possible.
pub fn assemble_pairs(draws: Vec<usize>) -> (pairs: Vec<(usize, usize)>)
    requires
        draws@.len() % 2 == 0,
    ensures
        pairs@.len() == draws@.len() / 2,
        flat_of(pairs@) == reduce_spec(draws@),
        flat_of(pairs@).to_multiset() == draws@.to_multiset(),
{
    let mut data = draws;
    reduce_repeats(&mut data);
    let pairs = to_pairs(&data);
    proof {
        assert(flat_of(pairs@) =~= data@);
    }
    pairs
}

/// Groups a draw sequence of even length into consecutive pairs
/// `(data[2k], data[2k+1])`, in order.
pub fn to_pairs(data: &Vec<usize>) -> (pairs: Vec<(usize, usize)>)
    requires
        data@.len() % 2 == 0,
    ensures
        pairs@.len() == data@.len() / 2,
        forall|k: int|
            0 <= k < pairs@.len() ==> pairs@[k].0 == data@[2 * k] && pairs@[k].1 == data@[2 * k
                + 1],
{
    let len = data.len();
    let mut pairs: Vec<(usize, usize)> = Vec::new();
    let mut cursor: usize = 0;
    while cursor < len
        invariant
            len == data@.len(),
            len % 2 == 0,
            cursor % 2 == 0,
            cursor <= len,
            pairs@.len() == cursor / 2,
            forall|k: int|
                0 <= k < pairs@.len() ==> pairs@[k].0 == data@[2 * k] && pairs@[k].1 == data@[2 * k
                    + 1],
        decreases len - cursor,
    {
        pairs.push((data[cursor], data[cursor + 1]));
        cursor = cursor + 2;
    }
    pairs
}

} // verus!
