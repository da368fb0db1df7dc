//! A singly linked list of `i32` values; new values go to the front.
use vstd::prelude::*;
use crate::text::{
    bracketed, decimal, lemma_bracketed_prepend, lemma_listing_append, listing,
    write_entry,
};

verus! {

/// One cell of the list.
pub struct ListNode {
    pub value: i32,
    pub next: Option<Box<ListNode>>,
}

/// The values of a chain of cells, first cell first.
pub open spec fn chain(l: Option<Box<ListNode>>) -> Seq<i32>
    decreases l,
{
    match l {
        None => Seq::empty(),
        Some(n) => seq![n.value] + chain(n.next),
    }
}

/// `s` without its first occurrence of `v` (unchanged when `v` is absent).
pub open spec fn remove_first(s: Seq<i32>, v: i32) -> Seq<i32>
    decreases s.len(),
{
    if s.len() == 0 {
        s
    } else if s[0] == v {
        s.drop_first()
    } else {
        seq![s[0]] + remove_first(s.drop_first(), v)
    }
}

/// A singly linked list of `i32` values.
pub struct LinkedList {
    head: Option<Box<ListNode>>,
}

impl View for LinkedList {
    type V = Seq<i32>;

    /// The values of the list, front first.
    closed spec fn view(&self) -> Seq<i32> {
        chain(self.head)
    }
}

/// Removing the first occurrence after a prefix that does not hold `v`.
proof fn lemma_remove_first_prefix(p: Seq<i32>, s: Seq<i32>, v: i32)
    requires
        !p.contains(v),
    ensures
        remove_first(p + s, v) == p + remove_first(s, v),
    decreases p.len(),
{
    if p.len() > 0 {
        assert((p + s)[0] == p[0]);
        assert(p[0] != v);
        assert((p + s).drop_first() =~= p.drop_first() + s);
        assert(!p.drop_first().contains(v)) by {
            if p.drop_first().contains(v) {
                let i = choose|i: int| 0 <= i < p.drop_first().len() && p.drop_first()[i] == v;
                assert(p[i + 1] == v);
            }
        }
        lemma_remove_first_prefix(p.drop_first(), s, v);
        assert(remove_first(p + s, v) =~= p + remove_first(s, v));
    } else {
        assert(p + s =~= s);
        assert(p + remove_first(s, v) =~= remove_first(s, v));
    }
}

impl LinkedList {
    /// Create an empty list.
    pub fn new() -> (l: Self)
        ensures
            l@ == Seq::<i32>::empty(),
    {
        LinkedList { head: None }
    }

    /// Put `value` at the front of the list.
    pub fn insert(&mut self, value: i32)
        ensures
            final(self)@ == seq![value] + old(self)@,
    {
        self.head = Some(Box::new(ListNode { value, next: self.head.take() }));
    }

    /// `true` if `value` occurs in the list.
    pub fn find(&self, value: i32) -> (r: bool)
        ensures
            r == self@.contains(value),
    {
        let mut current = &self.head;
        loop
            invariant
                self@.contains(value) == chain(*current).contains(value),
            decreases chain(*current).len(),
        {
            match current {
                None => {
                    return false;
                },
                Some(node) => {
                    proof {
                        let s = chain(*current);
                        assert(s == seq![node.value] + chain(node.next));
                        assert(s[0] == node.value);
                        if chain(node.next).contains(value) {
                            let i = choose|i: int| 0 <= i < chain(node.next).len() && chain(node.next)[i] == value;
                            assert(s[i + 1] == value);
                        }
                        if s.contains(value) && node.value != value {
                            let i = choose|i: int| 0 <= i < s.len() && s[i] == value;
                            assert(chain(node.next)[i - 1] == value);
                        }
                    }
                    if node.value == value {
                        return true;
                    }
                    current = &node.next;
                },
            }
        }
    }

    /// Remove the first occurrence of `value`. Returns `true` if one was
    /// found, `false` if the list does not hold `value`.
    pub fn delete(&mut self, value: i32) -> (r: bool)
        ensures
            final(self)@ == remove_first(old(self)@, value),
            r == old(self)@.contains(value),
    {
        let ghost old_list = chain(self.head);
        let mut head = self.head.take();
        let ghost mut prefix: Seq<i32> = Seq::empty();
        let mut found = false;
        let mut current = &mut head;
        loop
            invariant_except_break
                old_list == prefix + chain(*current),
                !prefix.contains(value),
                !found,
                chain(after_borrow(head)) == prefix + chain(*final(current)),
            ensures
                chain(after_borrow(head)) == remove_first(old_list, value),
                found == old_list.contains(value),
            decreases chain(*current).len(),
        {
            if current.is_none() {
                proof {
                    assert(chain(*current) == Seq::<i32>::empty());
                    lemma_remove_first_prefix(prefix, chain(*current), value);
                    assert(prefix + chain(*current) =~= prefix);
                    assert(old_list == prefix);
                    assert(!old_list.contains(value));
                }
                break;
            }
            if current.as_ref().unwrap().value == value {
                let node = current.take().unwrap();
                proof {
                    let rest = seq![node.value] + chain(node.next);
                    lemma_remove_first_prefix(prefix, rest, value);
                    assert(rest[0] == value);
                    assert(rest.drop_first() =~= chain(node.next));
                    assert(old_list[prefix.len() as int] == value);
                }
                *current = node.next;
                found = true;
                break;
            }
            proof {
                prefix = prefix.push(current.unwrap().value);
            }
            current = &mut current.as_mut().unwrap().next;
        }
        self.head = head;
        found
    }
}

impl LinkedList {
    /// The values front to back, written as `[a, b, c]`.
    pub fn to_string(&self) -> (r: String)
        ensures
            r@ == bracketed(self@),
    {
        let mut out = String::new();
        proof {
            reveal_strlit("[");
            reveal_strlit("]");
        }
        out.append("[");
        let mut first = true;
        let mut current = &self.head;
        let ghost mut done: Seq<i32> = Seq::empty();
        loop
            invariant
                self@ == done + chain(*current),
                out@ == seq!['['] + listing(done, true),
                first == (done.len() == 0),
            ensures
                current.is_none(),
            decreases chain(*current).len(),
        {
            match current {
                None => {
                    break;
                },
                Some(node) => {
                    write_entry(&mut out, &mut first, node.value);
                    proof {
                        lemma_listing_append(done, seq![node.value], true);
                        assert(done + chain(*current) =~= done.push(node.value) + chain(node.next));
                        assert(done + seq![node.value] =~= done.push(node.value));
                        done = done.push(node.value);
                    }
                    current = &node.next;
                },
            }
        }
        proof {
            assert(done + chain(*current) =~= done);
        }
        out.append("]");
        assert(out@ =~= bracketed(self@));
        out
    }
}

/// Dropping releases the cells one at a time, front to back, so a long list
/// never recurses once per cell.
impl Drop for LinkedList {
    fn drop(&mut self)
        opens_invariants none
        no_unwind
    {
        let mut current: Option<Box<ListNode>> = None;
        core::mem::swap(&mut current, &mut self.head);
        loop
            decreases chain(current).len(),
        {
            match current {
                None => {
                    break;
                },
                Some(node) => {
                    let mut node = node;
                    let mut next: Option<Box<ListNode>> = None;
                    core::mem::swap(&mut next, &mut node.next);
                    current = next;
                },
            }
        }
    }
}

/// `remove_first` takes out exactly the first occurrence: a sequence without
/// `v` is unchanged, otherwise the entry at the first index holding `v` is
/// removed and everything else keeps its order.
pub proof fn lemma_remove_first(s: Seq<i32>, v: i32)
    ensures
        !s.contains(v) ==> remove_first(s, v) == s,
        s.contains(v) ==> exists|i: int|
            0 <= i < s.len() && s[i] == v && !s.subrange(0, i).contains(v)
                && remove_first(s, v) == s.remove(i),
        remove_first(s, v).len() == s.len() - (if s.contains(v) { 1int } else { 0int }),
    decreases s.len(),
{
    if s.len() == 0 {
    } else if s[0] == v {
        assert(s.subrange(0, 0) =~= Seq::<i32>::empty());
        assert(s.remove(0) =~= s.drop_first());
        assert(s.contains(v) && remove_first(s, v) == s.remove(0));
    } else {
        let t = s.drop_first();
        lemma_remove_first(t, v);
        assert(s =~= seq![s[0]] + t);
        if s.contains(v) {
            let k = choose|k: int| 0 <= k < s.len() && s[k] == v;
            assert(t[k - 1] == v);
            let i = choose|i: int|
                0 <= i < t.len() && t[i] == v && !t.subrange(0, i).contains(v)
                    && remove_first(t, v) == t.remove(i);
            assert(s[i + 1] == v);
            assert(s.remove(i + 1) =~= seq![s[0]] + t.remove(i));
            assert(!s.subrange(0, i + 1).contains(v)) by {
                let p = s.subrange(0, i + 1);
                if p.contains(v) {
                    let j = choose|j: int| 0 <= j < p.len() && #[trigger] p[j] == v;
                    assert(t.subrange(0, i)[j - 1] == v);
                }
            }
        } else {
            if t.contains(v) {
                let k = choose|k: int| 0 <= k < t.len() && t[k] == v;
                assert(s[k + 1] == v);
            }
            assert(remove_first(s, v) =~= s);
        }
    }
}

/// Insert/find law: after `insert(v)` the list holds `v`, at the front.
pub proof fn lemma_insert_then_find(l: &LinkedList, v: i32)
    ensures
        (seq![v] + l@).contains(v),
        (seq![v] + l@)[0] == v,
{
    assert((seq![v] + l@)[0] == v);
}

/// Deleting `v` right after inserting it gives back the list as it was,
/// whether or not `v` occurred in it already.
pub proof fn lemma_delete_undoes_insert(l: &LinkedList, v: i32)
    ensures
        remove_first(seq![v] + l@, v) == l@,
{
    let s = seq![v] + l@;
    assert(s[0] == v);
    assert(s.drop_first() =~= l@);
}

/// Text law for insertion: after `insert(x)` the list is written as `[`,
/// the decimal text of `x`, `", "` (unless the list was empty) and then the
/// text it had before without its opening `[`.
pub proof fn lemma_text_after_insert(l: &LinkedList, x: i32)
    ensures
        bracketed(seq![x] + l@) == seq!['['] + decimal(x as int) + (if l@.len() == 0 {
            Seq::<char>::empty()
        } else {
            seq![',', ' ']
        }) + bracketed(l@).drop_first(),
{
    lemma_bracketed_prepend(x, l@);
}

} // verus!
