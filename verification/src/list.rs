//! Lists on the wire: the number of items as a word, then the items' codes in order.

use vstd::prelude::*;
use crate::wire::{
    begins, lemma_prefix_cancel, lemma_prefix_extend, lemma_prefix_split, lemma_prefix_trans,
    lemma_unique_code, lemma_window_skip, window, Decoded, Wire,
};

verus! {

/// The codes of `items`, one after another.
pub open spec fn wire_seq<V: Wire>(items: Seq<V>) -> Seq<u8>
    decreases items.len(),
{
    if items.len() == 0 {
        Seq::empty()
    } else {
        wire_seq(items.drop_last()) + items.last().wire()
    }
}

/// The code of a list of at most `u64::MAX` items: its length, then the codes of its items.
pub open spec fn wire_list<V: Wire>(items: Seq<V>) -> Seq<u8> {
    (items.len() as u64).wire() + wire_seq(items)
}

/// One more item adds its code at the end.
pub proof fn lemma_wire_seq_push<V: Wire>(items: Seq<V>, v: V)
    ensures
        wire_seq(items.push(v)) == wire_seq(items) + v.wire(),
{
    assert(items.push(v).drop_last() =~= items);
}

/// The codes of two runs of items laid end to end are the codes of each, laid end to end.
pub proof fn lemma_wire_seq_concat<V: Wire>(a: Seq<V>, b: Seq<V>)
    ensures
        wire_seq(a + b) == wire_seq(a) + wire_seq(b),
    decreases b.len(),
{
    if b.len() == 0 {
        assert(a + b =~= a);
        assert(wire_seq(a) + wire_seq(b) =~= wire_seq(a));
    } else {
        assert((a + b).drop_last() =~= a + b.drop_last());
        lemma_wire_seq_concat(a, b.drop_last());
        assert(wire_seq(a + b) =~= wire_seq(a) + wire_seq(b));
    }
}

/// The codes of the first `n` items are the beginning of the codes of all, and the code of
/// the next item follows them.
pub proof fn lemma_wire_seq_take<V: Wire>(items: Seq<V>, n: int)
    requires
        0 <= n <= items.len(),
    ensures
        wire_seq(items.take(n)).is_prefix_of(wire_seq(items)),
        n < items.len() ==> wire_seq(items.take(n + 1)) == wire_seq(items.take(n))
            + items[n].wire(),
{
    assert(items =~= items.take(n) + items.skip(n));
    lemma_wire_seq_concat(items.take(n), items.skip(n));
    assert(wire_seq(items.take(n)) =~= wire_seq(items).subrange(
        0,
        wire_seq(items.take(n)).len() as int,
    ));
    if n < items.len() {
        assert(items.take(n + 1) =~= items.take(n).push(items[n]));
        lemma_wire_seq_push(items.take(n), items[n]);
    }
}

/// Two runs of items whose codes begin one sequence of bytes agree item by item, as far as
/// the shorter run goes.
pub proof fn lemma_wire_seq_agree<V: Wire>(a: Seq<V>, b: Seq<V>, w: Seq<u8>)
    requires
        a.len() <= b.len(),
        wire_seq(a).is_prefix_of(w),
        wire_seq(b).is_prefix_of(w),
    ensures
        a == b.take(a.len() as int),
    decreases a.len(),
{
    if a.len() == 0 {
        assert(a =~= b.take(0));
    } else {
        let n = a.len() - 1;
        let front = a.drop_last();
        let head = wire_seq(front);
        assert(head =~= wire_seq(a).subrange(0, head.len() as int));
        lemma_prefix_trans(head, wire_seq(a), w);
        lemma_wire_seq_agree(front, b, w);
        lemma_wire_seq_take(b, n);
        lemma_wire_seq_take(b, n + 1);
        lemma_prefix_trans(wire_seq(b.take(n + 1)), wire_seq(b), w);
        lemma_prefix_split(head, w);
        let rest = w.skip(head.len() as int);
        lemma_prefix_cancel(head, a.last().wire(), rest);
        lemma_prefix_cancel(head, b[n].wire(), rest);
        lemma_unique_code(a.last(), b[n], rest);
        assert(a =~= b.take(n + 1));
    }
}

/// A sequence of bytes begins with the code of at most one list.
pub proof fn lemma_unique_list<V: Wire>(a: Seq<V>, b: Seq<V>, w: Seq<u8>)
    requires
        a.len() <= u64::MAX,
        b.len() <= u64::MAX,
        wire_list(a).is_prefix_of(w),
        wire_list(b).is_prefix_of(w),
    ensures
        a == b,
{
    let na = a.len() as u64;
    let nb = b.len() as u64;
    lemma_prefix_extend(na.wire(), na.wire(), wire_seq(a));
    lemma_prefix_extend(nb.wire(), nb.wire(), wire_seq(b));
    lemma_prefix_trans(na.wire(), wire_list(a), w);
    lemma_prefix_trans(nb.wire(), wire_list(b), w);
    lemma_unique_code(na, nb, w);
    lemma_prefix_split(na.wire(), w);
    let body = w.skip(na.wire().len() as int);
    lemma_prefix_cancel(na.wire(), wire_seq(a), body);
    lemma_prefix_cancel(na.wire(), wire_seq(b), body);
    lemma_wire_seq_agree(a, b, body);
    assert(b.take(a.len() as int) =~= b);
}

/// Where bytes begin with the code of a list, and also with a length word, some items and
/// `tail`, the list has that length and those items, and the code of its next item begins
/// `tail`.
pub proof fn lemma_list_next_item<V: Wire>(
    count: u64,
    items: Seq<V>,
    tail: Seq<u8>,
    list: Seq<V>,
)
    requires
        items.len() < count,
        list.len() <= u64::MAX,
        wire_list(list).is_prefix_of(count.wire() + wire_seq(items) + tail),
    ensures
        list.len() == count,
        list.take(items.len() as int) == items,
        list[items.len() as int].wire().is_prefix_of(tail),
{
    let w = count.wire() + wire_seq(items) + tail;
    let n = list.len() as u64;
    lemma_prefix_extend(n.wire(), n.wire(), wire_seq(list));
    lemma_prefix_trans(n.wire(), wire_list(list), w);
    lemma_prefix_extend(count.wire(), count.wire(), wire_seq(items) + tail);
    assert(w =~= count.wire() + (wire_seq(items) + tail));
    lemma_unique_code(n, count, w);
    let body = wire_seq(items) + tail;
    lemma_prefix_cancel(count.wire(), wire_seq(list), body);
    lemma_prefix_extend(wire_seq(items), wire_seq(items), tail);
    lemma_wire_seq_agree(items, list, body);
    let k = items.len() as int;
    lemma_wire_seq_take(list, k);
    lemma_wire_seq_take(list, k + 1);
    lemma_prefix_trans(wire_seq(list.take(k + 1)), wire_seq(list), body);
    lemma_prefix_cancel(wire_seq(items), list[k].wire(), tail);
}

/// Appends the code of the list `items` to `out`.
pub fn encode_list<V: Wire>(items: &Vec<V>, out: &mut Vec<u8>)
    ensures
        final(out)@ == old(out)@ + wire_list(items@),
{
    let count = items.len() as u64;
    count.encode(out);
    let mut i: usize = 0;
    while i < items.len()
        invariant
            i <= items.len(),
            out@ == old(out)@ + count.wire() + wire_seq(items@.take(i as int)),
        decreases items.len() - i,
    {
        proof {
            lemma_wire_seq_take(items@, i as int);
        }
        items[i].encode(out);
        i = i + 1;
        assert(out@ =~= old(out)@ + count.wire() + wire_seq(items@.take(i as int)));
    }
    assert(items@.take(i as int) =~= items@);
    assert(out@ =~= old(out)@ + wire_list(items@));
}

/// Reads one list from `bytes`, starting at the offset `at`.
pub fn decode_list<V: Wire>(bytes: &[u8], at: usize) -> (r: Decoded<Vec<V>>)
    ensures
        match r {
            Decoded::Complete(items, n) => wire_list(items@).is_prefix_of(window(bytes@, at as int))
                && n == wire_list(items@).len(),
            Decoded::Incomplete => exists|list: Seq<V>|
                list.len() <= u64::MAX && #[trigger] begins(
                    window(bytes@, at as int),
                    wire_list(list),
                ),
            Decoded::Malformed => forall|list: Seq<V>, more: Seq<u8>|
                list.len() <= u64::MAX ==> !(#[trigger] wire_list(list).is_prefix_of(
                    window(bytes@, at as int) + more,
                )),
        },
{
    let ghost w = window(bytes@, at as int);
    let total = bytes.len();
    match u64::decode(bytes, at) {
        Decoded::Complete(count, n) => {
            let mut items: Vec<V> = Vec::new();
            let mut pos: usize = at + n;
            let mut done: u64 = 0;
            assert(count.wire() + wire_seq(items@) =~= count.wire());
            while done < count
                invariant
                    w == window(bytes@, at as int),
                    w.len() <= total,
                    total == bytes.len(),
                    done <= count,
                    items@.len() == done,
                    (count.wire() + wire_seq(items@)).is_prefix_of(w),
                    pos == at + (count.wire() + wire_seq(items@)).len(),
                decreases count - done,
            {
                let ghost head = count.wire() + wire_seq(items@);
                let ghost rest = window(bytes@, pos as int);
                proof {
                    lemma_window_skip(bytes@, at as int, head.len() as int);
                    lemma_prefix_split(head, w);
                }
                match V::decode(bytes, pos) {
                    Decoded::Complete(v, m) => {
                        proof {
                            lemma_prefix_cancel(head, v.wire(), rest);
                            lemma_wire_seq_push(items@, v);
                            assert(count.wire() + wire_seq(items@.push(v)) =~= head + v.wire());
                        }
                        items.push(v);
                        pos = pos + m;
                        done = done + 1;
                    },
                    Decoded::Incomplete => {
                        proof {
                            let v = choose|v: V| #[trigger] begins(rest, v.wire());
                            let fill = Seq::new((count - done - 1) as nat, |i: int| v);
                            let list = items@.push(v) + fill;
                            lemma_wire_seq_concat(items@.push(v), fill);
                            lemma_wire_seq_push(items@, v);
                            assert(wire_list(list) =~= head + (v.wire() + wire_seq(fill)));
                            lemma_prefix_extend(rest, v.wire(), wire_seq(fill));
                            lemma_prefix_cancel(head, rest, v.wire() + wire_seq(fill));
                            assert(begins(w, wire_list(list)));
                        }
                        return Decoded::Incomplete;
                    },
                    Decoded::Malformed => {
                        proof {
                            assert forall|list: Seq<V>, more: Seq<u8>|
                                list.len() <= u64::MAX implies !(#[trigger] wire_list(
                                list,
                            ).is_prefix_of(w + more)) by {
                                if wire_list(list).is_prefix_of(w + more) {
                                    assert(w + more =~= count.wire() + wire_seq(items@) + (rest
                                        + more));
                                    lemma_list_next_item(count, items@, rest + more, list);
                                    assert(list[done as int].wire().is_prefix_of(rest + more));
                                }
                            }
                        }
                        return Decoded::Malformed;
                    },
                }
            }
            assert(wire_list(items@) == count.wire() + wire_seq(items@));
            Decoded::Complete(items, pos - at)
        },
        Decoded::Incomplete => {
            proof {
                let count = choose|v: u64| #[trigger] begins(w, v.wire());
                let filler: V = arbitrary();
                let list = Seq::new(count as nat, |i: int| filler);
                lemma_prefix_extend(w, count.wire(), wire_seq(list));
                assert(begins(w, wire_list(list)));
            }
            Decoded::Incomplete
        },
        Decoded::Malformed => {
            proof {
                assert forall|list: Seq<V>, more: Seq<u8>|
                    list.len() <= u64::MAX implies !(#[trigger] wire_list(list).is_prefix_of(
                    w + more,
                )) by {
                    if wire_list(list).is_prefix_of(w + more) {
                        let n = list.len() as u64;
                        lemma_prefix_extend(n.wire(), n.wire(), wire_seq(list));
                        lemma_prefix_trans(n.wire(), wire_list(list), w + more);
                        assert(n.wire().is_prefix_of(w + more));
                    }
                }
            }
            Decoded::Malformed
        },
    }
}

} // verus!
