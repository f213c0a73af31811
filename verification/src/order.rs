//! Putting rows in order: by one or two texts for the lists that are shown,
//! by id for the tables of the store. Rows that may stand either way stay
//! in the order in which they came.

use vstd::prelude::*;
use crate::text::{
    lemma_bytes_le_both, lemma_bytes_le_chain, lemma_bytes_le_either, str_eq, str_le, text_le,
};

verus! {

/// What a row is sorted by: a first text, and a second one that decides
/// among rows with the same first text.
pub struct SortKey {
    pub first: String,
    pub second: String,
}

/// A sort key as mathematics sees it.
pub struct KeyText {
    pub first: Seq<char>,
    pub second: Seq<char>,
}

impl View for SortKey {
    type V = KeyText;

    open spec fn view(&self) -> KeyText {
        KeyText { first: self.first@, second: self.second@ }
    }
}

/// The keys as mathematics sees them.
pub open spec fn key_texts(keys: Seq<SortKey>) -> Seq<KeyText> {
    keys.map_values(|k: SortKey| k@)
}

/// Whether a row with key `a` may stand before a row with key `b`.
pub open spec fn key_le(a: KeyText, b: KeyText) -> bool {
    if a.first == b.first {
        text_le(a.second, b.second)
    } else {
        text_le(a.first, b.first)
    }
}

/// The sorted positions `order` with the position `x` put in: behind the
/// last position that may stand before `x`.
pub open spec fn placed_by(le: spec_fn(usize, usize) -> bool, order: Seq<usize>, x: usize) -> Seq<
    usize,
>
    decreases order.len(),
{
    if order.len() == 0 {
        seq![x]
    } else if le(order.last(), x) {
        order.push(x)
    } else {
        placed_by(le, order.drop_last(), x).push(order.last())
    }
}

/// The first `n` positions, sorted by `le`; positions that may stand either
/// way keep their order.
pub open spec fn order_by(le: spec_fn(usize, usize) -> bool, n: nat) -> Seq<usize>
    decreases n,
{
    if n == 0 {
        Seq::empty()
    } else {
        placed_by(le, order_by(le, (n - 1) as nat), (n - 1) as usize)
    }
}

/// Whether the row at `i` may stand before the row at `j`, by their keys.
pub open spec fn key_order(keys: Seq<KeyText>) -> spec_fn(usize, usize) -> bool {
    |i: usize, j: usize| key_le(keys[i as int], keys[j as int])
}

/// Whether the row at `i` may stand before the row at `j`, by their ids.
pub open spec fn id_order(ids: Seq<i64>) -> spec_fn(usize, usize) -> bool {
    |i: usize, j: usize| ids[i as int] <= ids[j as int]
}

/// The positions of the first `n` rows, sorted by their keys; rows with
/// keys that may stand either way keep their order.
pub open spec fn sorted_order(keys: Seq<KeyText>, n: nat) -> Seq<usize> {
    order_by(key_order(keys), n)
}

/// The positions of the first `n` rows, sorted by their ids.
pub open spec fn rising_order(ids: Seq<i64>, n: nat) -> Seq<usize> {
    order_by(id_order(ids), n)
}

/// Whether each position of `order` may stand before those after it.
pub open spec fn in_order(le: spec_fn(usize, usize) -> bool, order: Seq<usize>) -> bool {
    forall|a: int, b: int| 0 <= a < b < order.len() ==> le(order[a], order[b])
}

/// Whether positions that may stand either way stand as they came: the
/// lower before the higher.
pub open spec fn as_they_came(le: spec_fn(usize, usize) -> bool, order: Seq<usize>) -> bool {
    forall|a: int, b: int|
        0 <= a < b < order.len() && le(order[b], order[a]) ==> order[a] < order[b]
}

/// Whether of two positions below `n` one may always stand before the
/// other, and whether with `i` before `j` and `j` before `k` also `i` may
/// stand before `k`.
pub open spec fn orders(le: spec_fn(usize, usize) -> bool, n: nat) -> bool {
    &&& forall|i: usize, j: usize| i < n && j < n ==> #[trigger] le(i, j) || le(j, i)
    &&& forall|i: usize, j: usize, k: usize|
        #![trigger le(i, j), le(j, k)]
        i < n && j < n && k < n && le(i, j) && le(j, k) ==> le(i, k)
}

/// `placed_by` puts `x` at `pos` if every position from `pos` on must stand
/// behind `x`, and the one before `pos` may stand before it.
proof fn lemma_placed_at(le: spec_fn(usize, usize) -> bool, order: Seq<usize>, x: usize, pos: int)
    requires
        0 <= pos <= order.len(),
        forall|j: int| pos <= j < order.len() ==> !le(order[j], x),
        pos > 0 ==> le(order[pos - 1], x),
    ensures
        placed_by(le, order, x) == order.take(pos).push(x) + order.skip(pos),
    decreases order.len() - pos,
{
    if order.len() == 0 {
        assert(order.take(pos).push(x) + order.skip(pos) =~= seq![x]);
    } else if pos == order.len() {
        assert(order.take(pos).push(x) + order.skip(pos) =~= order.push(x));
    } else {
        let front = order.drop_last();
        assert forall|j: int| pos <= j < front.len() implies !le(front[j], x) by {
            assert(front[j] == order[j]);
        }
        if pos > 0 {
            assert(front[pos - 1] == order[pos - 1]);
        }
        lemma_placed_at(le, front, x, pos);
        assert(!le(order.last(), x));
        assert((front.take(pos).push(x) + front.skip(pos)).push(order.last()) =~= order.take(
            pos,
        ).push(x) + order.skip(pos));
    }
}

/// `placed_by` keeps the positions it was given, adds `x`, and nothing else.
pub proof fn lemma_placed_members(
    le: spec_fn(usize, usize) -> bool,
    order: Seq<usize>,
    x: usize,
    y: usize,
)
    ensures
        placed_by(le, order, x).len() == order.len() + 1,
        placed_by(le, order, x).contains(y) <==> (y == x || order.contains(y)),
    decreases order.len(),
{
    let out = placed_by(le, order, x);
    if order.len() == 0 {
        assert(out[0] == x);
    } else if le(order.last(), x) {
        assert(out[out.len() - 1] == x);
        if order.contains(y) {
            let k = choose|k: int| 0 <= k < order.len() && order[k] == y;
            assert(out[k] == y);
        }
    } else {
        let front = order.drop_last();
        let inner = placed_by(le, front, x);
        lemma_placed_members(le, front, x, y);
        assert(out == inner.push(order.last()));
        if out.contains(y) {
            let k = choose|k: int| 0 <= k < out.len() && out[k] == y;
            if k < inner.len() {
                assert(inner[k] == y);
                if y != x {
                    let j = choose|j: int| 0 <= j < front.len() && front[j] == y;
                    assert(order[j] == y);
                }
            } else {
                assert(order[order.len() - 1] == y);
            }
        }
        if y == x || order.contains(y) {
            if y == x || front.contains(y) {
                let k = choose|k: int| 0 <= k < inner.len() && inner[k] == y;
                assert(out[k] == y);
            } else {
                let j = choose|j: int| 0 <= j < order.len() && order[j] == y;
                assert(j == order.len() - 1) by {
                    if j < order.len() - 1 {
                        assert(front[j] == y);
                    }
                }
                assert(out[out.len() - 1] == y);
            }
        }
    }
}

/// Putting a position into positions in order, all lower than it, leaves
/// them in order, as they came, and without a position twice.
#[verifier::rlimit(60)]
proof fn lemma_placed_sorted(le: spec_fn(usize, usize) -> bool, order: Seq<usize>, x: usize, n: nat)
    requires
        orders(le, n),
        x < n,
        forall|a: int| 0 <= a < order.len() ==> order[a] < x,
        in_order(le, order),
        as_they_came(le, order),
        order.no_duplicates(),
    ensures
        in_order(le, placed_by(le, order, x)),
        as_they_came(le, placed_by(le, order, x)),
        placed_by(le, order, x).no_duplicates(),
    decreases order.len(),
{
    let out = placed_by(le, order, x);
    if order.len() == 0 {
    } else if le(order.last(), x) {
        assert forall|a: int, b: int| 0 <= a < b < out.len() implies le(out[a], out[b]) by {
            if b == order.len() && a < order.len() - 1 {
                assert(le(order[a], order[order.len() - 1]));
            }
        }
    } else {
        let front = order.drop_last();
        let last = order.last();
        let inner = placed_by(le, front, x);
        assert forall|a: int| 0 <= a < front.len() implies front[a] < x by {
            assert(front[a] == order[a]);
        }
        assert(in_order(le, front) && as_they_came(le, front) && front.no_duplicates()) by {
            assert forall|a: int, b: int| 0 <= a < b < front.len() implies le(
                front[a],
                front[b],
            ) by {
                assert(le(order[a], order[b]));
            }
            assert forall|a: int, b: int|
                0 <= a < b < front.len() && le(front[b], front[a]) implies front[a] < front[b] by {
                assert(order[a] == front[a] && order[b] == front[b]);
            }
            assert forall|a: int, b: int|
                0 <= a < front.len() && 0 <= b < front.len() && a != b implies front[a]
                != front[b] by {
                assert(order[a] != order[b]);
            }
        }
        lemma_placed_sorted(le, front, x, n);
        assert(out == inner.push(last));
        assert forall|a: int| 0 <= a < inner.len() implies le(#[trigger] inner[a], last) && (le(
            last,
            inner[a],
        ) ==> inner[a] < last) && inner[a] != last by {
            lemma_placed_members(le, front, x, inner[a]);
            assert(inner.contains(inner[a]));
            if inner[a] != x {
                let j = choose|j: int| 0 <= j < front.len() && front[j] == inner[a];
                assert(order[j] == inner[a]);
                assert(le(order[j], order[order.len() - 1]));
                assert(order[j] != order[order.len() - 1]);
            }
        }
    }
}

/// The order of the first `n` positions holds each of them once, and none
/// else; each may stand before those after it, and positions that may stand
/// either way stand as they came.
pub proof fn lemma_order_sorts(le: spec_fn(usize, usize) -> bool, n: nat, m: nat)
    requires
        orders(le, m),
        n <= m,
        m <= usize::MAX,
    ensures
        order_by(le, n).len() == n,
        forall|y: usize| order_by(le, n).contains(y) <==> y < n,
        order_by(le, n).no_duplicates(),
        in_order(le, order_by(le, n)),
        as_they_came(le, order_by(le, n)),
    decreases n,
{
    if n > 0 {
        let before = order_by(le, (n - 1) as nat);
        let x = (n - 1) as usize;
        lemma_order_sorts(le, (n - 1) as nat, m);
        assert forall|a: int| 0 <= a < before.len() implies before[a] < x by {
            assert(before.contains(before[a]));
        }
        lemma_placed_sorted(le, before, x, m);
        assert forall|y: usize| order_by(le, n).contains(y) <==> y < n by {
            lemma_placed_members(le, before, x, y);
        }
        lemma_placed_members(le, before, x, x);
    } else {
        assert forall|y: usize| !order_by(le, n).contains(y) by {}
    }
}

/// Of two keys one may stand before the other, and standing before carries
/// over from key to key.
pub proof fn lemma_keys_order(keys: Seq<KeyText>)
    ensures
        orders(key_order(keys), keys.len()),
{
    let le = key_order(keys);
    assert forall|i: usize, j: usize| i < keys.len() && j < keys.len() implies #[trigger] le(i, j)
        || le(j, i) by {
        let a = keys[i as int];
        let b = keys[j as int];
        lemma_bytes_le_either(vstd::utf8::encode_utf8(a.first), vstd::utf8::encode_utf8(b.first));
        lemma_bytes_le_either(
            vstd::utf8::encode_utf8(a.second),
            vstd::utf8::encode_utf8(b.second),
        );
    }
    assert forall|i: usize, j: usize, k: usize|
        #![trigger le(i, j), le(j, k)]
        i < keys.len() && j < keys.len() && k < keys.len() && le(i, j) && le(j, k) implies le(
        i,
        k,
    ) by {
        let a = keys[i as int];
        let b = keys[j as int];
        let c = keys[k as int];
        let af = vstd::utf8::encode_utf8(a.first);
        let bf = vstd::utf8::encode_utf8(b.first);
        let cf = vstd::utf8::encode_utf8(c.first);
        if a.first == b.first && b.first == c.first {
            lemma_bytes_le_chain(
                vstd::utf8::encode_utf8(a.second),
                vstd::utf8::encode_utf8(b.second),
                vstd::utf8::encode_utf8(c.second),
            );
        } else if a.first == b.first || b.first == c.first {
        } else {
            lemma_bytes_le_chain(af, bf, cf);
            if a.first == c.first {
                // Then the first text of `b` lies between two equal texts and so equals them.
                lemma_bytes_le_both(af, bf);
                vstd::utf8::encode_utf8_decode_utf8(a.first);
                vstd::utf8::encode_utf8_decode_utf8(b.first);
            }
        }
    }
}

/// The sorted order of `n` rows holds each of their positions once; the
/// key of each row may stand before the keys of the rows after it, and rows
/// whose keys may stand either way keep the order in which they were
/// stored.
pub proof fn sorted_order_sorts(keys: Seq<KeyText>, n: nat)
    requires
        n <= keys.len(),
        keys.len() <= usize::MAX,
    ensures
        sorted_order(keys, n).len() == n,
        forall|y: usize| sorted_order(keys, n).contains(y) <==> y < n,
        sorted_order(keys, n).no_duplicates(),
        forall|a: int, b: int|
            0 <= a < b < n ==> key_le(
                keys[sorted_order(keys, n)[a] as int],
                keys[sorted_order(keys, n)[b] as int],
            ),
        forall|a: int, b: int|
            0 <= a < b < n && key_le(
                keys[sorted_order(keys, n)[b] as int],
                keys[sorted_order(keys, n)[a] as int],
            ) ==> sorted_order(keys, n)[a] < sorted_order(keys, n)[b],
{
    let le = key_order(keys);
    let o = sorted_order(keys, n);
    lemma_keys_order(keys);
    lemma_order_sorts(le, n, keys.len());
    assert forall|a: int, b: int| 0 <= a < b < n implies key_le(
        keys[o[a] as int],
        keys[o[b] as int],
    ) by {
        assert(le(o[a], o[b]));
    }
    assert forall|a: int, b: int|
        0 <= a < b < n && key_le(keys[o[b] as int], keys[o[a] as int]) implies o[a] < o[b] by {
        assert(le(o[b], o[a]));
    }
}

/// The rising order of `n` rows holds each of their positions once, and
/// the ids do not fall from row to row.
pub proof fn rising_order_sorts(ids: Seq<i64>, n: nat)
    requires
        n <= ids.len(),
        ids.len() <= usize::MAX,
    ensures
        rising_order(ids, n).len() == n,
        forall|y: usize| rising_order(ids, n).contains(y) <==> y < n,
        rising_order(ids, n).no_duplicates(),
        forall|a: int, b: int|
            0 <= a < b < n ==> ids[rising_order(ids, n)[a] as int] <= ids[rising_order(
                ids,
                n,
            )[b] as int],
{
    let le = id_order(ids);
    let o = rising_order(ids, n);
    assert(orders(le, ids.len()));
    lemma_order_sorts(le, n, ids.len());
    assert forall|a: int, b: int| 0 <= a < b < n implies ids[o[a] as int] <= ids[o[b] as int] by {
        assert(le(o[a], o[b]));
    }
}

/// Whether a row with key `a` may stand before a row with key `b`.
pub fn may_precede(a: &SortKey, b: &SortKey) -> (r: bool)
    ensures
        r == key_le(a@, b@),
{
    if str_eq(a.first.as_str(), b.first.as_str()) {
        str_le(a.second.as_str(), b.second.as_str())
    } else {
        str_le(a.first.as_str(), b.first.as_str())
    }
}

/// The positions of the rows, sorted by their keys.
#[verifier::rlimit(60)]
pub fn sort_positions(keys: &Vec<SortKey>) -> (order: Vec<usize>)
    ensures
        order@ == sorted_order(key_texts(keys@), keys.len() as nat),
        order.len() == keys.len(),
        forall|i: int| 0 <= i < order.len() ==> order[i] < keys.len(),
{
    let ghost le = key_order(key_texts(keys@));
    let mut order: Vec<usize> = Vec::new();
    let mut x: usize = 0;
    while x < keys.len()
        invariant
            x <= keys.len(),
            le == key_order(key_texts(keys@)),
            order@ == order_by(le, x as nat),
            order.len() == x,
            forall|i: int| 0 <= i < order.len() ==> order[i] < x,
        decreases keys.len() - x,
    {
        let mut pos: usize = order.len();
        while pos > 0 && !may_precede(&keys[order[pos - 1]], &keys[x])
            invariant
                pos <= order.len(),
                x < keys.len(),
                le == key_order(key_texts(keys@)),
                forall|i: int| 0 <= i < order.len() ==> order[i] < x,
                forall|j: int| pos <= j < order.len() ==> !le(order[j], x),
            decreases pos,
        {
            pos -= 1;
        }
        proof {
            lemma_placed_at(le, order@, x, pos as int);
        }
        let ghost before = order@;
        order.insert(pos, x);
        proof {
            assert(order@ =~= before.take(pos as int).push(x) + before.skip(pos as int));
            assert forall|i: int| 0 <= i < order.len() implies order[i] < x + 1 by {
                if i < pos {
                    assert(order[i] == before[i]);
                } else if i > pos {
                    assert(order[i] == before[i - 1]);
                }
            }
        }
        x += 1;
    }
    order
}

/// The positions of the rows, sorted by their ids.
#[verifier::rlimit(60)]
pub fn sort_ids(ids: &Vec<i64>) -> (order: Vec<usize>)
    ensures
        order@ == rising_order(ids@, ids.len() as nat),
        order.len() == ids.len(),
        forall|i: int| 0 <= i < order.len() ==> order[i] < ids.len(),
{
    let ghost le = id_order(ids@);
    let mut order: Vec<usize> = Vec::new();
    let mut x: usize = 0;
    while x < ids.len()
        invariant
            x <= ids.len(),
            le == id_order(ids@),
            order@ == order_by(le, x as nat),
            order.len() == x,
            forall|i: int| 0 <= i < order.len() ==> order[i] < x,
        decreases ids.len() - x,
    {
        let mut pos: usize = order.len();
        while pos > 0 && ids[order[pos - 1]] > ids[x]
            invariant
                pos <= order.len(),
                x < ids.len(),
                le == id_order(ids@),
                forall|i: int| 0 <= i < order.len() ==> order[i] < x,
                forall|j: int| pos <= j < order.len() ==> !le(order[j], x),
            decreases pos,
        {
            pos -= 1;
        }
        proof {
            lemma_placed_at(le, order@, x, pos as int);
        }
        let ghost before = order@;
        order.insert(pos, x);
        proof {
            assert(order@ =~= before.take(pos as int).push(x) + before.skip(pos as int));
            assert forall|i: int| 0 <= i < order.len() implies order[i] < x + 1 by {
                if i < pos {
                    assert(order[i] == before[i]);
                } else if i > pos {
                    assert(order[i] == before[i - 1]);
                }
            }
        }
        x += 1;
    }
    order
}

} // verus!
