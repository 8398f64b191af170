//! Sequences without repeats, and what taking values out of them and
//! putting values into them does to their order.

use vstd::prelude::*;

verus! {

/// What removing position `at` by swapping does to a sequence: the last
/// element takes the place of the removed one and the sequence gets shorter
/// by one.
pub open spec fn swap_removed<A>(s: Seq<A>, at: int) -> Seq<A>
    recommends
        0 <= at < s.len(),
{
    s.update(at, s.last()).drop_last()
}

/// A sequence without `value`, the other values in their order.
pub open spec fn unlisted<A>(kinds: Seq<A>, key: A) -> Seq<A> {
    if kinds.contains(key) {
        kinds.remove(kinds.index_of(key))
    } else {
        kinds
    }
}

/// Taking a value out of a sequence without repeats by swapping leaves the
/// other values, each once.
pub proof fn lemma_swap_removed<A>(items: Seq<A>, value: A)
    requires
        items.no_duplicates(),
        items.contains(value),
    ensures
        swap_removed(items, items.index_of(value)).no_duplicates(),
        swap_removed(items, items.index_of(value)).len() == items.len() - 1,
        forall|other: A| #[trigger]
            swap_removed(items, items.index_of(value)).contains(other) <==> items.contains(
                other,
            ) && other != value,
{
    let at = items.index_of(value);
    let rest = swap_removed(items, at);
    let last = items.len() - 1;
    assert(items[at] == value);
    assert forall|other: A| #[trigger] rest.contains(other) <==> items.contains(other) && other
        != value by {
        if rest.contains(other) {
            let i = choose|i: int| 0 <= i < rest.len() && rest[i] == other;
            if i == at {
                assert(items[last] == other);
            } else {
                assert(items[i] == other);
            }
        }
        if items.contains(other) && other != value {
            let i = choose|i: int| 0 <= i < items.len() && items[i] == other;
            if i == last {
                assert(rest[at] == other);
            } else {
                assert(rest[i] == other);
            }
        }
    }
}

/// Putting a new value at the end of a sequence without repeats adds that
/// value and no repeat.
pub proof fn lemma_pushed<A>(items: Seq<A>, value: A)
    requires
        items.no_duplicates(),
        !items.contains(value),
    ensures
        items.push(value).no_duplicates(),
        forall|other: A| #[trigger]
            items.push(value).contains(other) <==> items.contains(other) || other == value,
{
    let more = items.push(value);
    assert forall|other: A| #[trigger] more.contains(other) <==> items.contains(other) || other
        == value by {
        if more.contains(other) {
            let i = choose|i: int| 0 <= i < more.len() && more[i] == other;
            if i < items.len() {
                assert(items[i] == other);
            }
        }
        if items.contains(other) {
            let i = choose|i: int| 0 <= i < items.len() && items[i] == other;
            assert(more[i] == other);
        }
        if other == value {
            assert(more[items.len() as int] == other);
        }
    }
    assert forall|i: int, j: int| 0 <= i < j < more.len() implies more[i] != more[j] by {
        if j == items.len() {
            assert(items[i] == more[i]);
        }
    }
}

/// Two sequences without repeats that share no value join into one without
/// repeats, which holds the values of both.
pub proof fn lemma_joined<A>(front: Seq<A>, back: Seq<A>)
    requires
        front.no_duplicates(),
        back.no_duplicates(),
        forall|c: A| !(front.contains(c) && back.contains(c)),
    ensures
        (front + back).no_duplicates(),
        forall|c: A| #[trigger] (front + back).contains(c) <==> front.contains(c) || back.contains(c),
{
    let all = front + back;
    assert forall|c: A| #[trigger] all.contains(c) <==> front.contains(c) || back.contains(
        c,
    ) by {
        if all.contains(c) {
            let i = choose|i: int| 0 <= i < all.len() && all[i] == c;
            if i < front.len() {
                assert(front[i] == c);
            } else {
                assert(back[i - front.len()] == c);
            }
        }
        if front.contains(c) {
            let i = choose|i: int| 0 <= i < front.len() && front[i] == c;
            assert(all[i] == c);
        }
        if back.contains(c) {
            let i = choose|i: int| 0 <= i < back.len() && back[i] == c;
            assert(all[i + front.len()] == c);
        }
    }
    assert forall|i: int, j: int| 0 <= i < j < all.len() implies all[i] != all[j] by {
        if i < front.len() && j >= front.len() {
            assert(front.contains(all[i]));
            assert(back[j - front.len()] == all[j]);
            assert(back.contains(all[j]));
        }
    }
}

/// Taking a value out of a sequence without repeats leaves the other
/// values, each once and in their order.
pub proof fn lemma_unlisted<A>(kinds: Seq<A>, key: A)
    requires
        kinds.no_duplicates(),
    ensures
        unlisted(kinds, key).no_duplicates(),
        forall|k: A| #[trigger] unlisted(kinds, key).contains(k) <==> kinds.contains(k) && k != key,
{
    if kinds.contains(key) {
        let at = kinds.index_of(key);
        let rest = kinds.remove(at);
        assert(kinds[at] == key);
        assert forall|k: A| #[trigger] rest.contains(k) <==> kinds.contains(k) && k != key by {
            if rest.contains(k) {
                let i = choose|i: int| 0 <= i < rest.len() && rest[i] == k;
                if i < at {
                    assert(kinds[i] == k);
                } else {
                    assert(kinds[i + 1] == k);
                }
            }
            if kinds.contains(k) && k != key {
                let i = choose|i: int| 0 <= i < kinds.len() && kinds[i] == k;
                if i < at {
                    assert(rest[i] == k);
                } else {
                    assert(rest[i - 1] == k);
                }
            }
        }
        assert forall|i: int, j: int| 0 <= i < j < rest.len() implies rest[i] != rest[j] by {
            let a = if i < at {
                i
            } else {
                i + 1
            };
            let b = if j < at {
                j
            } else {
                j + 1
            };
            assert(rest[i] == kinds[a]);
            assert(rest[j] == kinds[b]);
        }
    }
}

/// In a sequence without repeats, a value is found where it stands.
pub proof fn lemma_index_of<A>(items: Seq<A>, at: int)
    requires
        items.no_duplicates(),
        0 <= at < items.len(),
    ensures
        items.index_of(items[at]) == at,
{
    let found = items.index_of(items[at]);
    assert(items.contains(items[at]));
    assert(items[found] == items[at]);
}

} // verus!
