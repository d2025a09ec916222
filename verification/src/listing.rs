//! Lists of paths: what a new scan added, and moving files within a list.
use crate::display;
use crate::model;
use crate::model::FileItem;
use crate::text;
use vstd::prelude::*;

verus! {

/// The entries of `s` that stand in `set`, or, where `inside` is false, those that
/// do not, in their order.
pub open spec fn part(s: Seq<Seq<char>>, set: Seq<Seq<char>>, inside: bool) -> Seq<Seq<char>>
    decreases s.len(),
{
    if s.len() == 0 {
        Seq::empty()
    } else {
        let r = part(s.drop_last(), set, inside);
        if set.contains(s.last()) == inside {
            r.push(s.last())
        } else {
            r
        }
    }
}

/// The paths of `new` that `old` does not hold, in the order of `new`.
pub fn newly_added_paths(old_files: &Vec<FileItem>, new_files: &Vec<FileItem>) -> (r: Vec<String>)
    ensures
        text::texts(r@) == part(
            model::paths_of(new_files@),
            model::paths_of(old_files@),
            false,
        ),
{
    let ghost fresh = model::paths_of(new_files@);
    let ghost known = model::paths_of(old_files@);
    let mut out: Vec<String> = Vec::new();
    let mut i: usize = 0;
    assert(text::texts(out@) =~= part(fresh.take(0), known, false));
    while i < new_files.len()
        invariant
            i <= new_files.len(),
            fresh == model::paths_of(new_files@),
            known == model::paths_of(old_files@),
            text::texts(out@) == part(fresh.take(i as int), known, false),
        decreases new_files.len() - i,
    {
        let ghost before = out@;
        proof {
            let t = fresh.take(i + 1);
            assert(t.drop_last() =~= fresh.take(i as int));
            assert(t.last() == new_files@[i as int].path@);
        }
        if display::find_path(old_files, new_files[i].path.as_str()).is_none() {
            out.push(new_files[i].path.clone());
            assert(text::texts(out@) =~= text::texts(before).push(new_files@[i as int].path@));
        }
        i = i + 1;
    }
    assert(fresh.take(fresh.len() as int) =~= fresh);
    out
}

/// `original` with the entries that stand in `dragged` taken out and put back as
/// one block, in the order they had, before the entry at `slot` of the rest.
pub open spec fn moved_as_block(
    original: Seq<Seq<char>>,
    dragged: Seq<Seq<char>>,
    slot: int,
) -> Seq<Seq<char>> {
    let block = part(original, dragged, true);
    let rest = part(original, dragged, false);
    let at = if slot < rest.len() {
        slot
    } else {
        rest.len() as int
    };
    rest.take(at) + block + rest.skip(at)
}

pub(crate) fn split_part(list: &Vec<String>, set: &Vec<String>, inside: bool) -> (r: Vec<String>)
    ensures
        text::texts(r@) == part(text::texts(list@), text::texts(set@), inside),
{
    let ghost all = text::texts(list@);
    let mut out: Vec<String> = Vec::new();
    let mut i: usize = 0;
    assert(text::texts(out@) =~= part(all.take(0), text::texts(set@), inside));
    while i < list.len()
        invariant
            i <= list.len(),
            all == text::texts(list@),
            text::texts(out@) == part(all.take(i as int), text::texts(set@), inside),
        decreases list.len() - i,
    {
        let ghost before = out@;
        proof {
            let t = all.take(i + 1);
            assert(t.drop_last() =~= all.take(i as int));
            assert(t.last() == list@[i as int]@);
        }
        if text::has_text(set, list[i].as_str()) == inside {
            out.push(list[i].clone());
            assert(text::texts(out@) =~= text::texts(before).push(list@[i as int]@));
        }
        i = i + 1;
    }
    assert(all.take(all.len() as int) =~= all);
    out
}

/// Moves the entries of `original` that stand in `dragged` as one block to
/// `target_slot` of the list that is left without them, or to its end.
pub fn reorder_paths_as_block(
    original: &Vec<String>,
    dragged: &Vec<String>,
    target_slot: usize,
) -> (r: Vec<String>)
    ensures
        text::texts(r@) == moved_as_block(
            text::texts(original@),
            text::texts(dragged@),
            target_slot as int,
        ),
{
    let mut block = split_part(original, dragged, true);
    let mut rest = split_part(original, dragged, false);
    let ghost b = text::texts(block@);
    let ghost whole = text::texts(rest@);
    let slot: usize = if target_slot < rest.len() {
        target_slot
    } else {
        rest.len()
    };
    let mut tail = rest.split_off(slot);
    rest.append(&mut block);
    rest.append(&mut tail);
    assert(text::texts(rest@) =~= whole.take(slot as int) + b + whole.skip(slot as int));
    rest
}

proof fn lemma_part_counts(s: Seq<Seq<char>>, set: Seq<Seq<char>>)
    ensures
        part(s, set, true).to_multiset().add(part(s, set, false).to_multiset()) == s.to_multiset(),
        part(s, set, true).len() + part(s, set, false).len() == s.len(),
    decreases s.len(),
{
    broadcast use vstd::seq_lib::group_to_multiset_ensures;

    if s.len() > 0 {
        let p = s.drop_last();
        lemma_part_counts(p, set);
        assert(s =~= p.push(s.last()));
        let a = part(p, set, true);
        let b = part(p, set, false);
        assert(s.to_multiset() =~= p.to_multiset().insert(s.last()));
        if set.contains(s.last()) {
            assert(a.push(s.last()).to_multiset() =~= a.to_multiset().insert(s.last()));
        } else {
            assert(b.push(s.last()).to_multiset() =~= b.to_multiset().insert(s.last()));
        }
        assert(part(s, set, true).to_multiset().add(part(s, set, false).to_multiset())
            =~= s.to_multiset());
    } else {
        assert(part(s, set, true).to_multiset().add(part(s, set, false).to_multiset())
            =~= s.to_multiset());
    }
}

/// Moving a block loses no entry and adds none.
pub proof fn law_move_is_a_permutation(
    original: Seq<Seq<char>>,
    dragged: Seq<Seq<char>>,
    slot: int,
)
    requires
        slot >= 0,
    ensures
        moved_as_block(original, dragged, slot).to_multiset() == original.to_multiset(),
        moved_as_block(original, dragged, slot).len() == original.len(),
{
    broadcast use vstd::seq_lib::group_to_multiset_ensures;

    lemma_part_counts(original, dragged);
    let block = part(original, dragged, true);
    let rest = part(original, dragged, false);
    let at = if slot < rest.len() {
        slot
    } else {
        rest.len() as int
    };
    let (head, tail) = (rest.take(at), rest.skip(at));
    assert(rest =~= head + tail);
    vstd::seq_lib::lemma_multiset_commutative(head, tail);
    vstd::seq_lib::lemma_multiset_commutative(head, block);
    vstd::seq_lib::lemma_multiset_commutative(head + block, tail);
    assert(moved_as_block(original, dragged, slot).to_multiset() =~= original.to_multiset());
}

proof fn lemma_part_all(s: Seq<Seq<char>>, set: Seq<Seq<char>>, inside: bool)
    requires
        forall|i: int| 0 <= i < s.len() ==> set.contains(#[trigger] s[i]) == inside,
    ensures
        part(s, set, inside) == s,
        part(s, set, !inside) == Seq::<Seq<char>>::empty(),
    decreases s.len(),
{
    if s.len() > 0 {
        let p = s.drop_last();
        assert forall|i: int| 0 <= i < p.len() implies set.contains(#[trigger] p[i]) == inside by {
            assert(p[i] == s[i]);
        }
        lemma_part_all(p, set, inside);
        assert(s.last() == s[s.len() - 1]);
        assert(s =~= p.push(s.last()));
    } else {
        assert(part(s, set, inside) =~= s);
    }
}

proof fn lemma_part_add(a: Seq<Seq<char>>, b: Seq<Seq<char>>, set: Seq<Seq<char>>, inside: bool)
    ensures
        part(a + b, set, inside) == part(a, set, inside) + part(b, set, inside),
    decreases b.len(),
{
    if b.len() > 0 {
        let p = b.drop_last();
        lemma_part_add(a, p, set, inside);
        assert((a + b).drop_last() =~= a + p);
        assert((a + b).last() == b.last());
        assert(part(a, set, inside) + part(p, set, inside).push(b.last()) =~= (part(a, set, inside)
            + part(p, set, inside)).push(b.last()));
    } else {
        assert(a + b =~= a);
        assert(part(a, set, inside) + part(b, set, inside) =~= part(a, set, inside));
    }
}

pub proof fn lemma_part_holds(s: Seq<Seq<char>>, set: Seq<Seq<char>>, inside: bool)
    ensures
        forall|i: int|
            0 <= i < part(s, set, inside).len() ==> set.contains(
                #[trigger] part(s, set, inside)[i],
            ) == inside,
    decreases s.len(),
{
    if s.len() > 0 {
        let was = part(s.drop_last(), set, inside);
        let out = part(s, set, inside);
        lemma_part_holds(s.drop_last(), set, inside);
        assert forall|i: int| 0 <= i < out.len() implies set.contains(#[trigger] out[i])
            == inside by {
            if i < was.len() {
                assert(out[i] == was[i]);
            }
        }
    }
}

/// Moving what was just moved to the same slot changes nothing.
pub proof fn law_move_is_idempotent(
    original: Seq<Seq<char>>,
    dragged: Seq<Seq<char>>,
    slot: int,
)
    requires
        slot >= 0,
    ensures
        ({
            let once = moved_as_block(original, dragged, slot);
            moved_as_block(once, dragged, slot) == once
        }),
{
    let block = part(original, dragged, true);
    let rest = part(original, dragged, false);
    let at = if slot < rest.len() {
        slot
    } else {
        rest.len() as int
    };
    let (head, tail) = (rest.take(at), rest.skip(at));
    let once = head + block + tail;
    lemma_part_holds(original, dragged, true);
    lemma_part_holds(original, dragged, false);
    assert forall|i: int| 0 <= i < head.len() implies dragged.contains(#[trigger] head[i])
        == false by {
        assert(head[i] == rest[i]);
    }
    assert forall|i: int| 0 <= i < tail.len() implies dragged.contains(#[trigger] tail[i])
        == false by {
        assert(tail[i] == rest[at + i]);
    }
    lemma_part_all(head, dragged, false);
    lemma_part_all(tail, dragged, false);
    lemma_part_all(block, dragged, true);
    lemma_part_add(head + block, tail, dragged, true);
    lemma_part_add(head, block, dragged, true);
    lemma_part_add(head + block, tail, dragged, false);
    lemma_part_add(head, block, dragged, false);
    assert(part(once, dragged, true) =~= block);
    assert(part(once, dragged, false) =~= rest) by {
        assert(head + tail =~= rest);
        assert(part(once, dragged, false) =~= head + tail);
    }
}

/// Dragging nothing that the list holds leaves it as it is.
pub proof fn law_move_of_strangers_changes_nothing(
    original: Seq<Seq<char>>,
    dragged: Seq<Seq<char>>,
    slot: int,
)
    requires
        slot >= 0,
        forall|i: int| 0 <= i < original.len() ==> !dragged.contains(#[trigger] original[i]),
    ensures
        moved_as_block(original, dragged, slot) == original,
{
    lemma_part_all(original, dragged, false);
    assert(moved_as_block(original, dragged, slot) =~= original);
}

proof fn lemma_part_filters(s: Seq<Seq<char>>, set: Seq<Seq<char>>, inside: bool)
    ensures
        part(s, set, inside) == s.filter(|x: Seq<char>| set.contains(x) == inside),
    decreases s.len(),
{
    reveal(Seq::filter);
    if s.len() > 0 {
        lemma_part_filters(s.drop_last(), set, inside);
    } else {
        assert(part(s, set, inside) =~= s.filter(|x: Seq<char>| set.contains(x) == inside));
    }
}

/// What a scan added are the paths that were not there before, all of them and in the
/// order in which they were found.
pub proof fn law_added_paths_are_the_new_ones(was: Seq<Seq<char>>, now: Seq<Seq<char>>)
    ensures
        part(now, was, false) == now.filter(|x: Seq<char>| !was.contains(x)),
{
    lemma_part_filters(now, was, false);
    let f = |x: Seq<char>| was.contains(x) == false;
    let g = |x: Seq<char>| !was.contains(x);
    assert(f =~= g);
}

/// A block that is moved to a slot stands there: with the entries that are not moved
/// and those that are, each in their old order, as many of the first stand before the
/// block as the slot tells, or all of them, and the others behind it.
pub proof fn law_block_goes_to_its_slot(
    original: Seq<Seq<char>>,
    dragged: Seq<Seq<char>>,
    slot: int,
)
    requires
        slot >= 0,
    ensures
        ({
            let rest = original.filter(|x: Seq<char>| !dragged.contains(x));
            let block = original.filter(|x: Seq<char>| dragged.contains(x));
            let k = if slot < rest.len() {
                slot
            } else {
                rest.len() as int
            };
            let out = moved_as_block(original, dragged, slot);
            &&& out == rest.take(k) + block + rest.skip(k)
            &&& forall|i: int| 0 <= i < k ==> !dragged.contains(#[trigger] out[i])
            &&& forall|i: int|
                k <= i < k + block.len() ==> dragged.contains(#[trigger] out[i])
            &&& forall|i: int|
                k + block.len() <= i < out.len() ==> !dragged.contains(#[trigger] out[i])
        }),
{
    lemma_part_filters(original, dragged, true);
    lemma_part_filters(original, dragged, false);
    lemma_part_holds(original, dragged, true);
    lemma_part_holds(original, dragged, false);
    let f = |x: Seq<char>| dragged.contains(x) == false;
    let g = |x: Seq<char>| !dragged.contains(x);
    assert(f =~= g);
    let f = |x: Seq<char>| dragged.contains(x) == true;
    let g = |x: Seq<char>| dragged.contains(x);
    assert(f =~= g);
    let block = part(original, dragged, true);
    let rest = part(original, dragged, false);
    let k = if slot < rest.len() {
        slot
    } else {
        rest.len() as int
    };
    let out = moved_as_block(original, dragged, slot);
    assert forall|i: int| 0 <= i < k implies !dragged.contains(#[trigger] out[i]) by {
        assert(out[i] == rest[i]);
    }
    assert forall|i: int| k <= i < k + block.len() implies dragged.contains(
        #[trigger] out[i],
    ) by {
        assert(out[i] == block[i - k]);
    }
    assert forall|i: int| k + block.len() <= i < out.len() implies !dragged.contains(
        #[trigger] out[i],
    ) by {
        assert(out[i] == rest[i - block.len()]);
    }
}

} // verus!
