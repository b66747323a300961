//! Operations on the in-memory memo store.
//!
//! The store is a `Vec<Memo>` in insertion order. Identifiers are plain
//! strings and nothing makes them unique: lookups return the first match
//! in store order, removal drops every match.

use vstd::prelude::*;
use vstd::string::StrSliceExecFns;

use crate::memo::Memo;

verus! {

/// The first memo in `memos` whose identifier reads `id`, if any.
pub open spec fn spec_find(memos: Seq<Memo>, id: Seq<char>) -> Option<Memo>
    decreases memos.len(),
{
    if memos.len() == 0 {
        None
    } else if memos[0].id@ == id {
        Some(memos[0])
    } else {
        spec_find(memos.drop_first(), id)
    }
}

/// The position of the first memo in `memos` whose identifier reads `id`;
/// `memos.len()` when there is none.
pub open spec fn spec_find_index(memos: Seq<Memo>, id: Seq<char>) -> int
    decreases memos.len(),
{
    if memos.len() == 0 {
        0
    } else if memos[0].id@ == id {
        0
    } else {
        1 + spec_find_index(memos.drop_first(), id)
    }
}

/// A store keeps the first match: if `memos[i]` carries `id` and no memo
/// before position `i` does, then looking `id` up finds exactly `memos[i]`,
/// at exactly that position.
pub proof fn lemma_find_first_match(memos: Seq<Memo>, id: Seq<char>, i: int)
    requires
        0 <= i < memos.len(),
        memos[i].id@ == id,
        forall|j: int| 0 <= j < i ==> memos[j].id@ != id,
    ensures
        spec_find(memos, id) == Some(memos[i]),
        spec_find_index(memos, id) == i,
    decreases i,
{
    if i > 0 {
        assert(memos[0].id@ != id);
        lemma_find_first_match(memos.drop_first(), id, i - 1);
    }
}

/// Looking up an identifier that no memo carries finds nothing.
pub proof fn lemma_find_no_match(memos: Seq<Memo>, id: Seq<char>)
    requires
        forall|j: int| 0 <= j < memos.len() ==> memos[j].id@ != id,
    ensures
        spec_find(memos, id) is None,
    decreases memos.len(),
{
    if memos.len() > 0 {
        lemma_find_no_match(memos.drop_first(), id);
    }
}

/// Whatever a lookup finds carries the identifier it was asked for and
/// stands in the store.
pub proof fn lemma_find_is_match(memos: Seq<Memo>, id: Seq<char>)
    ensures
        spec_find(memos, id) matches Some(m) ==> m.id@ == id && memos.contains(m),
    decreases memos.len(),
{
    if memos.len() > 0 && memos[0].id@ != id {
        lemma_find_is_match(memos.drop_first(), id);
        if spec_find(memos, id) is Some {
            let m = spec_find(memos, id).unwrap();
            assert(memos.drop_first().contains(m));
            let k = choose|k: int|
                0 <= k < memos.drop_first().len() && memos.drop_first()[k] == m;
            assert(memos[k + 1] == m);
        }
    }
}

/// Character-for-character string equality, decided by walking both
/// strings.
fn str_eq(a: &str, b: &str) -> (r: bool)
    ensures
        r == (a@ == b@),
{
    let a_len = a.unicode_len();
    let b_len = b.unicode_len();
    if a_len != b_len {
        return false;
    }
    let mut i: usize = 0;
    while i < a_len
        invariant
            a_len == a@.len(),
            b_len == b@.len(),
            a_len == b_len,
            i <= a_len,
            forall|j: int| 0 <= j < i ==> a@[j] == b@[j],
        decreases a_len - i,
    {
        if a.get_char(i) != b.get_char(i) {
            return false;
        }
        i += 1;
    }
    proof {
        assert(a@ =~= b@);
    }
    true
}

/// The position of the first memo carrying `id`, searched front to back.
fn find_index(memos: &Vec<Memo>, id: &str) -> (r: Option<usize>)
    ensures
        match r {
            Some(i) => i < memos@.len() && memos@[i as int].id@ == id@ && (forall|j: int|
                0 <= j < i ==> memos@[j].id@ != id@),
            None => forall|j: int| 0 <= j < memos@.len() ==> memos@[j].id@ != id@,
        },
{
    let n = memos.len();
    let mut k: usize = 0;
    while k < n
        invariant
            n == memos@.len(),
            k <= n,
            forall|j: int| 0 <= j < k ==> memos@[j].id@ != id@,
        decreases n - k,
    {
        if str_eq(memos[k].id.as_str(), id) {
            return Some(k);
        }
        k += 1;
    }
    None
}

/// Appends `new_memo` at the end of the store.
///
/// The store afterwards is exactly the old store with `new_memo` at the
/// end: one longer, every earlier memo at its old position.
pub fn add_memo(memos: &mut Vec<Memo>, new_memo: Memo)
    ensures
        final(memos)@ == old(memos)@.push(new_memo),
{
    memos.push(new_memo);
}

/// Returns the first memo whose identifier equals `id`, or nothing when no
/// memo carries it. The store is only read.
pub fn find_memo<'a>(memos: &'a Vec<Memo>, id: &str) -> (r: Option<&'a Memo>)
    ensures
        match r {
            Some(m) => spec_find(memos@, id@) == Some(*m),
            None => spec_find(memos@, id@) is None,
        },
{
    match find_index(memos, id) {
        Some(i) => {
            proof {
                lemma_find_first_match(memos@, id@, i as int);
            }
            Some(&memos[i])
        },
        None => {
            proof {
                lemma_find_no_match(memos@, id@);
            }
            None
        },
    }
}

/// Returns exclusive access to the first memo whose identifier equals
/// `id`, or nothing when no memo carries it.
///
/// When a memo is found, the store afterwards is the old store with the
/// found position replaced by whatever the caller leaves behind the
/// returned reference; every other position is untouched. When none is
/// found, the store is unchanged.
pub fn find_memo_mut<'a>(memos: &'a mut Vec<Memo>, id: &str) -> (r: Option<&'a mut Memo>)
    ensures
        r is None ==> final(memos)@ == old(memos)@ && spec_find(old(memos)@, id@) is None,
        r is Some ==> ({
            let i = spec_find_index(old(memos)@, id@);
            &&& 0 <= i < old(memos)@.len()
            &&& old(memos)@[i].id@ == id@
            &&& (forall|j: int| 0 <= j < i ==> old(memos)@[j].id@ != id@)
            &&& spec_find(old(memos)@, id@) == Some(old(memos)@[i])
            &&& *r.unwrap() == old(memos)@[i]
            &&& final(memos)@ == old(memos)@.update(i, *final(r.unwrap()))
        }),
        r is Some <==> spec_find(old(memos)@, id@) is Some,
{
    match find_index(memos, id) {
        Some(i) => {
            proof {
                lemma_find_first_match(memos@, id@, i as int);
            }
            Some(vstd::std_specs::vec::vec_index_mut(memos, i))
        },
        None => {
            proof {
                lemma_find_no_match(memos@, id@);
            }
            None
        },
    }
}

/// Removes every memo whose identifier equals `id`; a no-op when no memo
/// carries it.
///
/// The store afterwards is exactly the old store with the matching memos
/// gone: the others keep their relative order.
pub fn delete_memo(memos: &mut Vec<Memo>, id: &str)
    ensures
        final(memos)@ == old(memos)@.filter(|m: Memo| m.id@ != id@),
{
    let ghost orig = memos@;
    let n = memos.len();
    let mut kept: Vec<Memo> = Vec::new();
    let mut k: usize = 0;
    while k < n
        invariant
            n == memos@.len(),
            memos@ == orig,
            k <= n,
            kept@ == orig.subrange(0, k as int).filter(|m: Memo| m.id@ != id@),
        decreases n - k,
    {
        let keep = !str_eq(memos[k].id.as_str(), id);
        if keep {
            kept.push(memos[k].clone());
        }
        proof {
            reveal(Seq::filter);
            let pred = |m: Memo| m.id@ != id@;
            let next = orig.subrange(0, k + 1);
            assert(next.drop_last() =~= orig.subrange(0, k as int));
            assert(next.last() == orig[k as int]);
            assert(next.filter(pred) == if pred(orig[k as int]) {
                next.drop_last().filter(pred).push(next.last())
            } else {
                next.drop_last().filter(pred)
            });
        }
        k += 1;
    }
    proof {
        assert(orig.subrange(0, n as int) =~= orig);
    }
    *memos = kept;
}

/// After a removal the removed identifier can no longer be found: the
/// memos that stay are exactly those carrying another identifier.
pub proof fn lemma_remove_then_find_none(memos: Seq<Memo>, id: Seq<char>)
    ensures
        spec_find(memos.filter(|m: Memo| m.id@ != id), id) is None,
{
    let kept = memos.filter(|m: Memo| m.id@ != id);
    assert forall|j: int| 0 <= j < kept.len() implies kept[j].id@ != id by {
        memos.lemma_filter_pred(|m: Memo| m.id@ != id, j);
    }
    lemma_find_no_match(kept, id);
}

/// A removal shortens the store by exactly the number of memos that
/// carried the removed identifier.
pub proof fn lemma_remove_len(memos: Seq<Memo>, id: Seq<char>)
    ensures
        memos.filter(|m: Memo| m.id@ != id).len() == memos.len() - memos.filter(
            |m: Memo| m.id@ == id,
        ).len(),
    decreases memos.len(),
{
    reveal(Seq::filter);
    if memos.len() > 0 {
        lemma_remove_len(memos.drop_last(), id);
    }
}

/// Removing an identifier that no memo carries leaves the store unchanged.
pub proof fn lemma_remove_absent_unchanged(memos: Seq<Memo>, id: Seq<char>)
    requires
        forall|j: int| 0 <= j < memos.len() ==> memos[j].id@ != id,
    ensures
        memos.filter(|m: Memo| m.id@ != id) == memos,
    decreases memos.len(),
{
    reveal(Seq::filter);
    if memos.len() > 0 {
        assert(memos.drop_last().len() == memos.len() - 1);
        lemma_remove_absent_unchanged(memos.drop_last(), id);
        assert(memos.filter(|m: Memo| m.id@ != id) =~= memos);
    }
}

/// A change made through the reference that `find_memo_mut` hands out is
/// what a later lookup of the same identifier sees: if position `i` held
/// the first memo carrying `id` and is overwritten by `m`, still carrying
/// `id`, then looking `id` up afterwards finds exactly `m`.
pub proof fn lemma_update_visible_to_find(memos: Seq<Memo>, id: Seq<char>, i: int, m: Memo)
    requires
        0 <= i < memos.len(),
        memos[i].id@ == id,
        forall|j: int| 0 <= j < i ==> memos[j].id@ != id,
        m.id@ == id,
    ensures
        spec_find(memos.update(i, m), id) == Some(m),
{
    lemma_find_first_match(memos.update(i, m), id, i);
}

} // verus!
