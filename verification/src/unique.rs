//! Lists without repetition.
use vstd::prelude::*;
use vstd::string::*;

verus! {

/// The items of `s` without repetition, each where it occurs first.
pub open spec fn unique<T>(s: Seq<T>) -> Seq<T>
    decreases s.len(),
{
    if s.len() == 0 {
        s
    } else {
        let front = unique(s.drop_last());
        if front.contains(s.last()) {
            front
        } else {
            front.push(s.last())
        }
    }
}

/// The texts that the strings hold.
pub open spec fn texts(s: Seq<String>) -> Seq<Seq<char>> {
    Seq::new(s.len(), |i: int| s[i]@)
}

/// Dropping repetitions keeps every item, once, and the first ones in front.
pub proof fn law_unique<T>(s: Seq<T>)
    ensures
        unique(s).no_duplicates(),
        forall|x: T| #[trigger] unique(s).contains(x) <==> s.contains(x),
        unique(s).len() <= s.len(),
        s.len() > 0 ==> unique(s).len() > 0 && unique(s)[0] == s[0],
    decreases s.len(),
{
    if s.len() > 0 {
        let rest = s.drop_last();
        let front = unique(rest);
        law_unique(rest);
        assert forall|x: T| #[trigger] unique(s).contains(x) <==> s.contains(x) by {
            if s.contains(x) {
                let i = choose|i: int| 0 <= i < s.len() && s[i] == x;
                if i < rest.len() {
                    assert(rest[i] == x);
                    assert(rest.contains(x));
                    assert(front.contains(x));
                    let j = choose|j: int| 0 <= j < front.len() && front[j] == x;
                    assert(unique(s)[j] == x);
                } else if !front.contains(x) {
                    assert(unique(s)[front.len() as int] == x);
                }
            }
            if unique(s).contains(x) {
                let j = choose|j: int| 0 <= j < unique(s).len() && unique(s)[j] == x;
                if j < front.len() {
                    assert(front[j] == x);
                    assert(front.contains(x));
                    assert(rest.contains(x));
                    let i = choose|i: int| 0 <= i < rest.len() && rest[i] == x;
                    assert(s[i] == x);
                } else {
                    assert(s[s.len() - 1] == x);
                }
            }
        }
    }
}

/// A list without repetition is kept as it is.
pub proof fn law_unique_keeps<T>(s: Seq<T>)
    requires
        s.no_duplicates(),
    ensures
        unique(s) == s,
    decreases s.len(),
{
    if s.len() > 0 {
        let rest = s.drop_last();
        law_unique_keeps(rest);
        if rest.contains(s.last()) {
            let i = choose|i: int| 0 <= i < rest.len() && rest[i] == s.last();
            assert(s[i] == s[s.len() - 1]);
        }
        assert(rest.push(s.last()) =~= s);
    }
}

/// What is kept of the front of a list is the front of what is kept of it.
pub proof fn law_unique_prefix<T>(s: Seq<T>, t: Seq<T>)
    ensures
        unique(s).is_prefix_of(unique(s + t)),
    decreases t.len(),
{
    if t.len() == 0 {
        assert(s + t =~= s);
    } else {
        law_unique_prefix(s, t.drop_last());
        assert((s + t).drop_last() =~= s + t.drop_last());
        let front = unique(s + t.drop_last());
        assert(unique(s + t) == front || unique(s + t) == front.push(t.last()));
        assert(front.push(t.last()).subrange(0, unique(s).len() as int) =~= front.subrange(
            0,
            unique(s).len() as int,
        ));
    }
}

/// What is kept keeps its order: of two items that occur for the first time, the
/// earlier one comes first.
pub proof fn law_unique_in_order<T>(s: Seq<T>, i: int, j: int)
    requires
        0 <= i < j < s.len(),
        !s.take(i).contains(s[i]),
        !s.take(j).contains(s[j]),
    ensures
        exists|p: int, q: int|
            0 <= p < q < unique(s).len() && #[trigger] unique(s)[p] == s[i] && #[trigger] unique(
                s,
            )[q] == s[j],
{
    law_unique_at(s, i);
    law_unique_at(s, j);
    let p = unique(s.take(i)).len() as int;
    let q = unique(s.take(j)).len() as int;
    law_unique_prefix(s.take(i + 1), s.subrange(i + 1, j));
    assert(s.take(i + 1) + s.subrange(i + 1, j) =~= s.take(j));
    assert(s.take(i + 1) =~= s.take(i).push(s[i]));
    lemma_unique_push(s.take(i), s[i]);
    law_unique(s.take(i));
    assert(p < q);
    assert(unique(s)[p] == s[i] && unique(s)[q] == s[j]);
}

/// An item that occurs for the first time is kept behind all that is kept of what
/// comes before it.
pub proof fn law_unique_at<T>(s: Seq<T>, i: int)
    requires
        0 <= i < s.len(),
        !s.take(i).contains(s[i]),
    ensures
        unique(s.take(i)).len() < unique(s).len(),
        unique(s)[unique(s.take(i)).len() as int] == s[i],
{
    let front = s.take(i);
    law_unique(front);
    assert(!unique(front).contains(s[i]));
    lemma_unique_push(front, s[i]);
    assert(front.push(s[i]) =~= s.take(i + 1));
    law_unique_prefix(s.take(i + 1), s.skip(i + 1));
    assert(s.take(i + 1) + s.skip(i + 1) =~= s);
    let n = unique(front).len() as int;
    assert(unique(s.take(i + 1)) == unique(front).push(s[i]));
    assert(unique(s.take(i + 1))[n] == s[i]);
}

/// An item that follows changes what is kept only where it is new.
pub proof fn lemma_unique_push<T>(s: Seq<T>, x: T)
    ensures
        unique(s.push(x)) == if unique(s).contains(x) {
            unique(s)
        } else {
            unique(s).push(x)
        },
{
    assert(s.push(x).drop_last() =~= s);
}

/// Whether `list` holds `text`.
fn holds(list: &Vec<String>, text: &String) -> (found: bool)
    ensures
        found == texts(list@).contains(text@),
{
    let mut i: usize = 0;
    while i < list.len()
        invariant
            i <= list@.len(),
            forall|j: int| 0 <= j < i ==> (#[trigger] list@[j])@ != text@,
        decreases list@.len() - i,
    {
        if list[i] == *text {
            assert(texts(list@)[i as int] == text@);
            return true;
        }
        i = i + 1;
    }
    false
}

/// Adds `text` to `list` unless it is there.
pub fn add_unique(list: &mut Vec<String>, text: String)
    ensures
        texts(final(list)@) == if texts(old(list)@).contains(text@) {
            texts(old(list)@)
        } else {
            texts(old(list)@).push(text@)
        },
{
    if !holds(list, &text) {
        let ghost before = texts(list@);
        let ghost added = text@;
        list.push(text);
        assert(texts(list@) =~= before.push(added));
    }
}

/// The strings of `list` without repetition, each where it occurs first.
pub fn merge_unique(list: Vec<String>) -> (out: Vec<String>)
    ensures
        texts(out@) == unique(texts(list@)),
{
    let mut out: Vec<String> = Vec::new();
    let mut i: usize = 0;
    assert(texts(out@) =~= unique(texts(list@).take(0)));
    while i < list.len()
        invariant
            i <= list@.len(),
            texts(out@) == unique(texts(list@).take(i as int)),
        decreases list@.len() - i,
    {
        proof {
            lemma_unique_push(texts(list@).take(i as int), list@[i as int]@);
            assert(texts(list@).take(i + 1) =~= texts(list@).take(i as int).push(
                list@[i as int]@,
            ));
        }
        add_unique(&mut out, list[i].clone());
        i = i + 1;
    }
    assert(texts(list@).take(i as int) =~= texts(list@));
    out
}

} // verus!
