//! Access to stored rows through an index: the index hands out
//! `(page_id, slot_id)` pairs, which are read page by page.
use vstd::prelude::*;
use vstd::string::StringExecFns;

verus! {

/// Where the pages of one structure live: the name of its file.
pub trait PageStorage {
    fn file_path(&self) -> String;
}

/// The character of decimal digit `d`.
pub open spec fn digit_char(d: nat) -> char {
    if d == 0 {
        '0'
    } else if d == 1 {
        '1'
    } else if d == 2 {
        '2'
    } else if d == 3 {
        '3'
    } else if d == 4 {
        '4'
    } else if d == 5 {
        '5'
    } else if d == 6 {
        '6'
    } else if d == 7 {
        '7'
    } else if d == 8 {
        '8'
    } else {
        '9'
    }
}

/// The decimal digits of `n`, most significant first, without leading
/// zeros.
pub open spec fn decimal_digits(n: nat) -> Seq<char>
    decreases n,
{
    if n < 10 {
        seq![digit_char(n)]
    } else {
        decimal_digits(n / 10).push(digit_char(n % 10))
    }
}

/// `n` written in decimal, with a leading `-` when negative.
pub open spec fn decimal(n: int) -> Seq<char> {
    if n < 0 {
        seq!['-'] + decimal_digits((-n) as nat)
    } else {
        decimal_digits(n as nat)
    }
}

/// The one-character string of decimal digit `d`.
fn digit(d: u64) -> (c: &'static str)
    requires
        d < 10,
    ensures
        c@ == seq![digit_char(d as nat)],
{
    proof {
        reveal_strlit("0");
        reveal_strlit("1");
        reveal_strlit("2");
        reveal_strlit("3");
        reveal_strlit("4");
        reveal_strlit("5");
        reveal_strlit("6");
        reveal_strlit("7");
        reveal_strlit("8");
        reveal_strlit("9");
    }
    if d == 0 {
        "0"
    } else if d == 1 {
        "1"
    } else if d == 2 {
        "2"
    } else if d == 3 {
        "3"
    } else if d == 4 {
        "4"
    } else if d == 5 {
        "5"
    } else if d == 6 {
        "6"
    } else if d == 7 {
        "7"
    } else if d == 8 {
        "8"
    } else {
        "9"
    }
}

/// Appends the decimal digits of `n` to `out`.
fn push_digits(out: &mut String, n: u64)
    ensures
        final(out)@ == old(out)@ + decimal_digits(n as nat),
    decreases n,
{
    if n < 10 {
        out.append(digit(n));
        assert(decimal_digits(n as nat) == seq![digit_char(n as nat)]);
    } else {
        push_digits(out, n / 10);
        out.append(digit(n % 10));
        assert(decimal_digits(n as nat) == decimal_digits((n / 10) as nat).push(digit_char((n % 10) as nat)));
        assert(decimal_digits((n / 10) as nat).push(digit_char((n % 10) as nat)) =~= decimal_digits((n / 10) as nat) + seq![digit_char((n % 10) as nat)]);
    }
}

/// Appends `n` in decimal to `out`.
pub fn push_decimal(out: &mut String, n: i32)
    ensures
        final(out)@ == old(out)@ + decimal(n as int),
{
    if n < 0 {
        proof {
            reveal_strlit("-");
        }
        out.append("-");
        let m: u64 = (0 - (n as i64)) as u64;
        push_digits(out, m);
        assert(old(out)@ + seq!['-'] + decimal_digits(m as nat) =~= old(out)@ + (seq!['-'] + decimal_digits(m as nat)));
    } else {
        push_digits(out, n as u64);
    }
}

/// The slots that `indexes` names on page `page_id`, in the order of the
/// pairs (a slot id is taken as a `usize` as is).
pub open spec fn slots_of(indexes: Seq<(i32, i32)>, page_id: i32) -> Seq<usize>
    decreases indexes.len(),
{
    if indexes.len() == 0 {
        Seq::empty()
    } else {
        let prev = slots_of(indexes.drop_last(), page_id);
        if indexes.last().0 == page_id {
            prev.push(indexes.last().1 as usize)
        } else {
            prev
        }
    }
}

/// `groups` holds one group per page that `indexes` names, with the slots
/// of that page in their order; the order of the groups is not fixed.
pub open spec fn groups_by_page(groups: Seq<(i32, Seq<usize>)>, indexes: Seq<(i32, i32)>) -> bool {
    &&& forall|k1: int, k2: int|
        0 <= k1 < k2 < groups.len() ==> #[trigger] groups[k1].0 != #[trigger] groups[k2].0
    &&& forall|k: int|
        0 <= k < groups.len() ==> #[trigger] groups[k].1 == slots_of(indexes, groups[k].0)
            && groups[k].1.len() > 0
    &&& forall|i: int|
        0 <= i < indexes.len() ==> exists|k: int|
            0 <= k < groups.len() && #[trigger] groups[k].0 == #[trigger] indexes[i].0
}

pub open spec fn group_view(g: (i32, Vec<usize>)) -> (i32, Seq<usize>) {
    (g.0, g.1@)
}

/// Rows reached through an index, read one page at a time.
pub struct IndexedRowIterator {
    indexes: Vec<(i32, Vec<usize>)>,
}

impl View for IndexedRowIterator {
    type V = Seq<(i32, Seq<usize>)>;

    closed spec fn view(&self) -> Seq<(i32, Seq<usize>)> {
        self.indexes@.map_values(|g: (i32, Vec<usize>)| group_view(g))
    }
}

proof fn lemma_slots_of_step(indexes: Seq<(i32, i32)>, i: int, p: i32)
    requires
        0 <= i < indexes.len(),
    ensures
        slots_of(indexes.subrange(0, i + 1), p) == if indexes[i].0 == p {
            slots_of(indexes.subrange(0, i), p).push(indexes[i].1 as usize)
        } else {
            slots_of(indexes.subrange(0, i), p)
        },
{
    assert(indexes.subrange(0, i + 1).drop_last() =~= indexes.subrange(0, i));
}

impl IndexedRowIterator {
    /// Groups the `(page_id, slot_id)` pairs of an index lookup by page.
    pub fn new(indexes: Vec<(i32, i32)>) -> (r: Self)
        ensures
            groups_by_page(r@, indexes@),
    {
        let mut groups: Vec<(i32, Vec<usize>)> = Vec::new();
        let mut i: usize = 0;
        while i < indexes.len()
            invariant
                i <= indexes@.len(),
                groups_by_page(
                    groups@.map_values(|g: (i32, Vec<usize>)| group_view(g)),
                    indexes@.subrange(0, i as int),
                ),
            decreases indexes@.len() - i,
        {
            let (page_id, slot_id) = indexes[i];
            let slot = #[verifier::truncate]
            (slot_id as usize);
            let ghost pre = groups@.map_values(|g: (i32, Vec<usize>)| group_view(g));
            let ghost seen = indexes@.subrange(0, i as int);
            let ghost next = indexes@.subrange(0, i as int + 1);
            let mut k: usize = 0;
            let mut found = false;
            while k < groups.len()
                invariant_except_break
                    !found,
                invariant
                    k <= groups@.len(),
                    forall|j: int| 0 <= j < k ==> groups@[j].0 != page_id,
                ensures
                    k <= groups@.len(),
                    forall|j: int| 0 <= j < k ==> groups@[j].0 != page_id,
                    found ==> k < groups@.len() && groups@[k as int].0 == page_id,
                    !found ==> k == groups@.len(),
                decreases groups@.len() - k,
            {
                if groups[k].0 == page_id {
                    found = true;
                    break;
                }
                k = k + 1;
            }
            if found {
                let (p, mut s) = groups.remove(k);
                s.push(slot);
                groups.insert(k, (p, s));
            } else {
                let mut s: Vec<usize> = Vec::new();
                s.push(slot);
                groups.push((page_id, s));
            }
            proof {
                let post = groups@.map_values(|g: (i32, Vec<usize>)| group_view(g));
                assert forall|q: i32| #[trigger] slots_of(next, q) == if q == page_id {
                    slots_of(seen, q).push(slot)
                } else {
                    slots_of(seen, q)
                } by {
                    lemma_slots_of_step(indexes@, i as int, q);
                }
                if found {
                    assert(post.len() == pre.len());
                    assert forall|j: int| 0 <= j < post.len() && j != k implies post[j] == pre[j] by {
                    }
                    assert(post[k as int] == (page_id, pre[k as int].1.push(slot)));
                } else {
                    assert(post.len() == pre.len() + 1);
                    assert forall|j: int| 0 <= j < pre.len() implies post[j] == pre[j] by {
                    }
                    assert(post[pre.len() as int] == (page_id, seq![slot]));
                    assert(slots_of(seen, page_id).len() == 0) by {
                        if slots_of(seen, page_id).len() > 0 {
                            lemma_slots_of_nonempty_seen(seen, page_id);
                            let w = choose|t: int| 0 <= t < seen.len() && seen[t].0 == page_id;
                            let kk = choose|kk: int| 0 <= kk < pre.len() && #[trigger] pre[kk].0 == seen[w].0;
                            assert(pre[kk].0 == groups@[kk].0);
                        }
                    }
                    assert(seq![slot] == Seq::<usize>::empty().push(slot));
                }
                assert forall|k1: int, k2: int|
                    0 <= k1 < k2 < post.len() implies #[trigger] post[k1].0 != #[trigger] post[k2].0 by {
                    if found {
                        assert(post[k1].0 == pre[k1].0);
                        assert(post[k2].0 == pre[k2].0);
                    } else if k2 < pre.len() {
                        assert(post[k1].0 == pre[k1].0);
                        assert(post[k2].0 == pre[k2].0);
                    } else {
                        assert(post[k1].0 == pre[k1].0);
                        assert(pre[k1].0 == groups@[k1].0);
                    }
                }
                assert forall|kk: int|
                    0 <= kk < post.len() implies #[trigger] post[kk].1 == slots_of(next, post[kk].0)
                        && post[kk].1.len() > 0 by {
                    let q = post[kk].0;
                    assert(slots_of(next, q) == if q == page_id {
                        slots_of(seen, q).push(slot)
                    } else {
                        slots_of(seen, q)
                    });
                    if found {
                        if kk != k {
                            assert(pre[kk].0 == groups@[kk].0);
                            assert(post[kk] == pre[kk]);
                            if q == page_id {
                                assert(pre[k as int].0 == page_id);
                                assert(false);
                            }
                        }
                    } else {
                        if kk < pre.len() {
                            assert(pre[kk].0 == groups@[kk].0);
                            assert(post[kk] == pre[kk]);
                        }
                    }
                }
                assert forall|t: int| 0 <= t < next.len() implies exists|kk: int|
                    0 <= kk < post.len() && #[trigger] post[kk].0 == #[trigger] next[t].0 by {
                    if t < i {
                        assert(next[t] == seen[t]);
                        let kk = choose|kk: int| 0 <= kk < pre.len() && #[trigger] pre[kk].0 == #[trigger] seen[t].0;
                        assert(post[kk].0 == pre[kk].0);
                    } else {
                        if found {
                            assert(post[k as int].0 == next[t].0);
                        } else {
                            assert(post[pre.len() as int].0 == next[t].0);
                        }
                    }
                }
            }
            i = i + 1;
        }
        proof {
            assert(indexes@.subrange(0, indexes@.len() as int) =~= indexes@);
        }
        IndexedRowIterator { indexes: groups }
    }

    /// Takes the next page to read and the slots to read on it.
    pub fn next_page(&mut self) -> (r: Option<(i32, Vec<usize>)>)
        ensures
            match r {
                Some(g) => old(self)@.len() > 0 && group_view(g) == old(self)@.last()
                    && final(self)@ == old(self)@.drop_last(),
                None => old(self)@.len() == 0 && final(self)@ == old(self)@,
            },
    {
        let r = self.indexes.pop();
        proof {
            assert(self@ =~= old(self)@.drop_last() || r is None);
        }
        r
    }
}

/// A page that `slots_of` gives slots for occurs in the pairs.
proof fn lemma_slots_of_nonempty_seen(indexes: Seq<(i32, i32)>, p: i32)
    requires
        slots_of(indexes, p).len() > 0,
    ensures
        exists|t: int| 0 <= t < indexes.len() && indexes[t].0 == p,
    decreases indexes.len(),
{
    if indexes.last().0 == p {
        assert(indexes[indexes.len() - 1].0 == p);
    } else {
        lemma_slots_of_nonempty_seen(indexes.drop_last(), p);
        let t = choose|t: int| 0 <= t < indexes.drop_last().len() && indexes.drop_last()[t].0 == p;
        assert(indexes[t].0 == p);
    }
}

} // verus!
