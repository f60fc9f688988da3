//! A bounded, ordered list of word-sized report items. The RTCP count field
//! is 5 bits wide, so a list never holds more than 31 items. The only
//! cross-list mutation is `append_all_possible`, which moves a prefix of one
//! list onto the end of another under an explicit word budget.

use vstd::prelude::*;

verus! {

/// An item that occupies a whole number of 4-byte words on the wire.
pub trait WordSized: Sized {
    /// The validity condition an item must satisfy before it is sized or
    /// serialized.
    spec fn wf(&self) -> bool;

    /// The number of words the item occupies when serialized.
    spec fn spec_word_size(&self) -> int;

    /// Every well-formed item occupies at least one word, and at most 2048
    /// (8 KiB), which keeps any packet length within its 16-bit field.
    proof fn lemma_word_size_in_range(&self)
        requires
            self.wf(),
        ensures
            1 <= self.spec_word_size() <= 2048,
    ;

    fn word_size(&self) -> (r: usize)
        requires
            self.wf(),
        ensures
            r == self.spec_word_size(),
    ;

    /// The exact bytes the item serializes to.
    spec fn spec_bytes(&self) -> Seq<u8>;

    /// A well-formed item serializes to exactly its word size in bytes.
    proof fn lemma_bytes_len(&self)
        requires
            self.wf(),
        ensures
            self.spec_bytes().len() == 4 * self.spec_word_size(),
    ;

    /// Serialize the item at offset `at`, touching exactly its own bytes.
    fn write_at(&self, buf: &mut Vec<u8>, at: usize)
        requires
            self.wf(),
            at + 4 * self.spec_word_size() <= old(buf).len(),
        ensures
            final(buf).len() == old(buf).len(),
            final(buf)@.subrange(at as int, at + 4 * self.spec_word_size())
                == self.spec_bytes(),
            forall|i: int|
                0 <= i < old(buf).len() && !(at <= i < at + 4 * self.spec_word_size())
                    ==> final(buf)@[i] == old(buf)@[i],
    ;
}

/// The concatenated bytes of a sequence of items, in order.
pub open spec fn bytes_of_items<T: WordSized>(s: Seq<T>) -> Seq<u8>
    decreases s.len(),
{
    if s.len() == 0 {
        Seq::<u8>::empty()
    } else {
        bytes_of_items(s.drop_last()) + s.last().spec_bytes()
    }
}

pub proof fn lemma_bytes_of_items_len<T: WordSized>(s: Seq<T>)
    requires
        forall|i: int| 0 <= i < s.len() ==> #[trigger] s[i].wf(),
    ensures
        bytes_of_items(s).len() == 4 * total_words(s),
    decreases s.len(),
{
    if s.len() == 0 {
    } else {
        assert(s =~= s.drop_last().push(s.last()));
        lemma_total_words_push(s.drop_last(), s.last());
        assert(forall|i: int|
            0 <= i < s.drop_last().len() ==> #[trigger] s.drop_last()[i].wf() == s[i].wf());
        lemma_bytes_of_items_len(s.drop_last());
        s.last().lemma_bytes_len();
        assert(total_words(s.drop_last().push(s.last())) == total_words(s.drop_last())
            + s.last().spec_word_size());
    }
}

/// Each item's bytes sit at the offset given by the word sizes of the items
/// before it.
pub proof fn lemma_bytes_of_items_index<T: WordSized>(s: Seq<T>, i: int)
    requires
        0 <= i < s.len(),
        forall|k: int| 0 <= k < s.len() ==> (#[trigger] s[k]).wf(),
    ensures
        4 * total_words(s.take(i)) + 4 * s[i].spec_word_size() <= bytes_of_items(s).len(),
        bytes_of_items(s).subrange(
            4 * total_words(s.take(i)),
            4 * total_words(s.take(i)) + 4 * s[i].spec_word_size(),
        ) == s[i].spec_bytes(),
    decreases s.len(),
{
    let dl = s.drop_last();
    assert(forall|k: int| 0 <= k < dl.len() ==> #[trigger] dl[k] == s[k]);
    lemma_bytes_of_items_len(s);
    lemma_bytes_of_items_len(dl);
    lemma_total_words_nonneg(s.take(i));
    s[i].lemma_bytes_len();
    s[i].lemma_word_size_in_range();
    assert(s =~= dl.push(s.last()));
    lemma_total_words_push(dl, s.last());
    if i == s.len() - 1 {
        assert(s.take(i) =~= dl);
        assert(bytes_of_items(s).subrange(
            4 * total_words(dl),
            4 * total_words(dl) + 4 * s[i].spec_word_size(),
        ) =~= s[i].spec_bytes());
    } else {
        lemma_bytes_of_items_index(dl, i);
        assert(dl.take(i) =~= s.take(i));
        lemma_total_words_split(dl, i + 1);
        lemma_total_words_nonneg(dl.skip(i + 1));
        assert(dl.take(i + 1) =~= dl.take(i).push(dl[i]));
        lemma_total_words_push(dl.take(i), dl[i]);
        let lo = 4 * total_words(s.take(i));
        let hi = lo + 4 * s[i].spec_word_size();
        assert(hi <= 4 * total_words(dl));
        assert(bytes_of_items(s).subrange(lo, hi) =~= bytes_of_items(dl).subrange(lo, hi));
    }
}

/// Splitting a sequence splits its total word size.
pub proof fn lemma_total_words_split<T: WordSized>(s: Seq<T>, i: int)
    requires
        0 <= i <= s.len(),
    ensures
        total_words(s) == total_words(s.take(i)) + total_words(s.skip(i)),
    decreases i,
{
    if i == 0 {
        assert(s.take(0) =~= Seq::<T>::empty());
        assert(s.skip(0) =~= s);
        assert(total_words(Seq::<T>::empty()) == 0);
    } else {
        let df = s.drop_first();
        lemma_total_words_split(df, i - 1);
        assert(s.take(i).drop_first() =~= df.take(i - 1));
        assert(s.skip(i) =~= df.skip(i - 1));
        assert(total_words(s.take(i)) == s.take(i)[0].spec_word_size() + total_words(
            s.take(i).drop_first(),
        ));
        assert(s.take(i)[0] == s[0]);
    }
}

/// The total word size of a sequence of items.
pub open spec fn total_words<T: WordSized>(s: Seq<T>) -> int
    decreases s.len(),
{
    if s.len() == 0 {
        0
    } else {
        s[0].spec_word_size() + total_words(s.drop_first())
    }
}

pub proof fn lemma_total_words_push<T: WordSized>(s: Seq<T>, x: T)
    ensures
        total_words(s.push(x)) == total_words(s) + x.spec_word_size(),
    decreases s.len(),
{
    if s.len() == 0 {
        assert(s.push(x).drop_first() =~= Seq::<T>::empty());
        assert(s.push(x)[0] == x);
        assert(total_words(Seq::<T>::empty()) == 0);
        assert(total_words(s) == 0);
    } else {
        assert(s.push(x).drop_first() =~= s.drop_first().push(x));
        assert(s.push(x)[0] == s[0]);
        lemma_total_words_push(s.drop_first(), x);
    }
}

pub proof fn lemma_total_words_nonneg<T: WordSized>(s: Seq<T>)
    requires
        forall|i: int| 0 <= i < s.len() ==> #[trigger] s[i].wf(),
    ensures
        total_words(s) >= 0,
        s.len() > 0 ==> total_words(s) >= 1,
    decreases s.len(),
{
    if s.len() > 0 {
        s[0].lemma_word_size_in_range();
        lemma_total_words_nonneg(s.drop_first());
    }
}

/// Each well-formed item is between 1 and 2048 words, so a sequence's total
/// is bounded by its length.
pub proof fn lemma_total_words_bound<T: WordSized>(s: Seq<T>)
    requires
        forall|i: int| 0 <= i < s.len() ==> #[trigger] s[i].wf(),
    ensures
        s.len() <= total_words(s) <= 2048 * s.len(),
    decreases s.len(),
{
    if s.len() > 0 {
        s[0].lemma_word_size_in_range();
        assert(forall|i: int|
            0 <= i < s.drop_first().len() ==> #[trigger] s.drop_first()[i].wf() == s[i + 1].wf());
        lemma_total_words_bound(s.drop_first());
    }
}

/// How many items can move from the front of `src` into a list with `space`
/// free slots under `budget` words: the greedy count that stops at the first
/// item that does not fit.
pub open spec fn n_movable<T: WordSized>(src: Seq<T>, space: int, budget: int) -> int
    decreases src.len(),
{
    if src.len() == 0 || space <= 0 || src[0].spec_word_size() > budget {
        0
    } else {
        1 + n_movable(src.drop_first(), space - 1, budget - src[0].spec_word_size())
    }
}

/// Concatenation adds total word sizes.
pub proof fn lemma_total_words_concat<T: WordSized>(s: Seq<T>, t: Seq<T>)
    ensures
        total_words(s + t) == total_words(s) + total_words(t),
{
    lemma_total_words_split(s + t, s.len() as int);
    assert((s + t).take(s.len() as int) =~= s);
    assert((s + t).skip(s.len() as int) =~= t);
}

/// The greedy move count stays within the source, the free slots, and the
/// word budget.
pub proof fn lemma_n_movable_props<T: WordSized>(src: Seq<T>, space: int, budget: int)
    ensures
        0 <= n_movable(src, space, budget) <= src.len(),
        n_movable(src, space, budget) <= (if space >= 0 {
            space
        } else {
            0
        }),
        budget >= 0 ==> total_words(src.take(n_movable(src, space, budget))) <= budget,
    decreases src.len(),
{
    if src.len() == 0 || space <= 0 || src[0].spec_word_size() > budget {
        assert(src.take(0) =~= Seq::<T>::empty());
        assert(total_words(Seq::<T>::empty()) == 0);
    } else {
        let ws = src[0].spec_word_size();
        lemma_n_movable_props(src.drop_first(), space - 1, budget - ws);
        let m = n_movable(src.drop_first(), space - 1, budget - ws);
        assert(src.take(1 + m).drop_first() =~= src.drop_first().take(m));
        assert(src.take(1 + m)[0] == src[0]);
        assert(total_words(src.take(1 + m)) == ws + total_words(src.drop_first().take(m)));
    }
}

/// An ordered list of at most 31 report items, in wire order.
#[derive(Clone, Debug, PartialEq, Eq)]
pub struct ReportList<T> {
    items: Vec<T>,
}

impl<T> View for ReportList<T> {
    type V = Seq<T>;

    closed spec fn view(&self) -> Seq<T> {
        self.items@
    }
}

impl<T: WordSized> ReportList<T> {
    /// The list invariant: at most 31 items, all of them well formed.
    pub open spec fn wf(&self) -> bool {
        &&& self@.len() <= 31
        &&& forall|i: int| 0 <= i < self@.len() ==> #[trigger] self@[i].wf()
    }

    /// An empty list.
    pub fn new() -> (r: Self)
        ensures
            r@ =~= Seq::<T>::empty(),
            r.wf(),
    {
        ReportList { items: Vec::new() }
    }

    /// A list seeded with one item.
    pub fn from_item(item: T) -> (r: Self)
        requires
            item.wf(),
        ensures
            r@ =~= seq![item],
            r.wf(),
    {
        let mut items = Vec::new();
        items.push(item);
        ReportList { items }
    }

    pub fn len(&self) -> (r: usize)
        ensures
            r == self@.len(),
    {
        self.items.len()
    }

    pub fn is_empty(&self) -> (r: bool)
        ensures
            r == (self@.len() == 0),
    {
        self.items.len() == 0
    }

    pub fn is_full(&self) -> (r: bool)
        ensures
            r == (self@.len() >= 31),
    {
        self.items.len() >= 31
    }

    pub fn get(&self, i: usize) -> (r: &T)
        requires
            i < self@.len(),
        ensures
            *r == self@[i as int],
    {
        &self.items[i]
    }

    /// The total word size of the items.
    pub fn words(&self) -> (r: usize)
        requires
            self.wf(),
        ensures
            r == total_words(self@),
            r <= 2048 * 31,
    {
        let mut sum: usize = 0;
        let mut i: usize = 0;
        proof {
            assert(self@.take(0) =~= Seq::<T>::empty());
            assert(total_words(Seq::<T>::empty()) == 0);
        }
        while i < self.items.len()
            invariant
                self.wf(),
                i <= self@.len(),
                sum == total_words(self@.take(i as int)),
                sum <= 2048 * i,
            decreases self@.len() - i,
        {
            proof {
                assert(self@[i as int].wf());
                self@[i as int].lemma_word_size_in_range();
                assert(self@.take(i as int + 1) =~= self@.take(i as int).push(self@[i as int]));
                lemma_total_words_push(self@.take(i as int), self@[i as int]);
            }
            sum = sum + self.items[i].word_size();
            i = i + 1;
        }
        proof {
            assert(self@.take(self@.len() as int) =~= self@);
        }
        sum
    }

    /// Serialize all items back to back starting at `at`, touching exactly
    /// those bytes.
    pub fn write_all(&self, buf: &mut Vec<u8>, at: usize) -> (n: usize)
        requires
            self.wf(),
            at + 4 * total_words(self@) <= old(buf).len(),
        ensures
            final(buf).len() == old(buf).len(),
            n == 4 * total_words(self@),
            final(buf)@.subrange(at as int, at as int + n) == bytes_of_items(self@),
            forall|k: int|
                0 <= k < old(buf).len() && !(at <= k < at + 4 * total_words(self@))
                    ==> final(buf)@[k] == old(buf)@[k],
    {
        let ghost full: int = total_words(self@);
        proof {
            lemma_total_words_nonneg(self@);
            assert(self@.take(0) =~= Seq::<T>::empty());
            assert(total_words(Seq::<T>::empty()) == 0);
        }
        let mut off: usize = at;
        let mut i: usize = 0;
        while i < self.items.len()
            invariant
                self.wf(),
                i <= self@.len(),
                full == total_words(self@),
                at + 4 * full <= old(buf).len(),
                off == at + 4 * total_words(self@.take(i as int)),
                off <= at + 4 * full,
                buf.len() == old(buf).len(),
                buf@.subrange(at as int, off as int) == bytes_of_items(self@.take(i as int)),
                forall|k: int|
                    0 <= k < old(buf).len() && !(at <= k < at + 4 * full) ==> buf@[k] == old(
                        buf,
                    )@[k],
            decreases self@.len() - i,
        {
            let ghost pre = self@.take(i as int);
            let ghost item_g = self@[i as int];
            proof {
                assert forall|k: int| 0 <= k < pre.len() implies #[trigger] pre[k].wf() by {
                    assert(pre[k] == self@[k]);
                }
                lemma_total_words_nonneg(pre);
                assert(self@[i as int].wf());
                self@[i as int].lemma_word_size_in_range();
                assert(self@.take(i as int + 1) =~= pre.push(item_g));
                lemma_total_words_push(pre, item_g);
                lemma_total_words_split(self@, i as int + 1);
                lemma_total_words_nonneg(self@.skip(i as int + 1));
                item_g.lemma_bytes_len();
                assert(total_words(self@.take(i as int + 1)) == total_words(pre)
                    + item_g.spec_word_size());
                assert(off + 4 * item_g.spec_word_size() <= at + 4 * full);
            }
            let item = &self.items[i];
            let ws = item.word_size();
            let ghost buf_pre = buf@;
            item.write_at(buf, off);
            proof {
                assert forall|j: int| at <= j < off implies buf@[j] == buf_pre[j] by {}
                assert(buf@.subrange(at as int, off as int) =~= buf_pre.subrange(
                    at as int,
                    off as int,
                ));
                assert(buf@.subrange(at as int, off as int + 4 * ws) =~= buf@.subrange(
                    at as int,
                    off as int,
                ) + buf@.subrange(off as int, off as int + 4 * ws));
                assert(self@.take(i as int + 1).drop_last() =~= pre);
                assert(self@.take(i as int + 1).last() == item_g);
                assert(bytes_of_items(self@.take(i as int + 1)) == bytes_of_items(pre)
                    + item_g.spec_bytes());
            }
            off = off + 4 * ws;
            i = i + 1;
        }
        proof {
            assert(self@.take(self@.len() as int) =~= self@);
        }
        off - at
    }

    /// Append one item. Succeeds and returns true exactly when the list
    /// holds fewer than 31 items; otherwise the list is unchanged.
    pub fn append(&mut self, item: T) -> (r: bool)
        requires
            old(self).wf(),
            item.wf(),
        ensures
            final(self).wf(),
            r == (old(self)@.len() < 31),
            r ==> final(self)@ =~= old(self)@.push(item),
            !r ==> final(self)@ =~= old(self)@,
    {
        if self.items.len() < 31 {
            self.items.push(item);
            true
        } else {
            false
        }
    }

    /// Move items from the front of `other` onto the end of `self`, stopping
    /// when `self` reaches 31 items, `other` runs out, or the next item's
    /// word size would exceed the remaining `word_budget`. Neither list is
    /// reordered and no item is split; the move never exceeds the budget.
    pub fn append_all_possible(&mut self, other: &mut ReportList<T>, word_budget: usize) -> (moved:
        usize)
        requires
            old(self).wf(),
            old(other).wf(),
        ensures
            final(self).wf(),
            final(other).wf(),
            moved == n_movable(old(other)@, 31 - old(self)@.len(), word_budget as int),
            final(self)@ =~= old(self)@ + old(other)@.take(moved as int),
            final(other)@ =~= old(other)@.skip(moved as int),
            final(self)@.len() <= 31,
            total_words(old(other)@.take(moved as int)) <= word_budget,
    {
        let ghost src0 = other@;
        let ghost dst0 = self@;
        let ghost space0: int = 31 - dst0.len();
        let mut moved: usize = 0;
        let mut budget_left: usize = word_budget;
        proof {
            assert(src0.take(0) =~= Seq::<T>::empty());
            assert(src0.skip(0) =~= src0);
        }
        loop
            invariant
                self.wf(),
                other.wf(),
                moved <= src0.len(),
                self@ =~= dst0 + src0.take(moved as int),
                other@ =~= src0.skip(moved as int),
                budget_left == word_budget - total_words(src0.take(moved as int)),
                budget_left <= word_budget,
                n_movable(src0, space0, word_budget as int) == moved + n_movable(
                    other@,
                    space0 - moved,
                    budget_left as int,
                ),
                space0 == 31 - dst0.len(),
                self@.len() == dst0.len() + moved,
            ensures
                moved == n_movable(src0, space0, word_budget as int),
            decreases other@.len(),
        {
            if self.items.len() >= 31 || other.items.len() == 0 {
                proof {
                    assert(n_movable(other@, space0 - moved, budget_left as int) == 0);
                }
                break ;
            }
            let ws = {
                let first = &other.items[0];
                proof {
                    assert(other@[0].wf());
                }
                first.word_size()
            };
            if ws > budget_left {
                proof {
                    assert(n_movable(other@, space0 - moved, budget_left as int) == 0);
                }
                break ;
            }
            let ghost src_cur = other@;
            let item = other.items.remove(0);
            self.items.push(item);
            proof {
                assert(src_cur[0] == src0[moved as int]);
                assert(src0.take(moved as int + 1) =~= src0.take(moved as int).push(item));
                lemma_total_words_push(src0.take(moved as int), item);
                assert(other@ =~= src_cur.drop_first());
                assert(src0.skip(moved as int + 1) =~= src_cur.drop_first());
                assert(n_movable(src_cur, space0 - moved, budget_left as int) == 1 + n_movable(
                    src_cur.drop_first(),
                    space0 - moved - 1,
                    budget_left - src_cur[0].spec_word_size(),
                ));
                item.lemma_word_size_in_range();
            }
            budget_left = budget_left - ws;
            moved = moved + 1;
        }
        proof {
            lemma_total_words_nonneg(src0.take(moved as int));
        }
        moved
    }
}

} // verus!
