//! Ordering records by name.
//!
//! The order is that of the names' bytes. Records with the same name keep
//! the order in which they came.

use vstd::prelude::*;
use vstd::seq_lib::*;
use crate::file::{views, File, FileView};
use crate::order::{lemma_name_le_total_order, name_le, name_precedes};

verus! {

/// Whether the names never go down along the sequence.
pub open spec fn names_ascend(files: Seq<FileView>) -> bool {
    forall|i: int, j: int|
        0 <= i <= j < files.len() ==> name_le((#[trigger] files[i]).name, (#[trigger] files[j]).name)
}

/// Where `file` goes into `sorted`: right behind the last record whose name
/// is at most its own, and in front where there is no such record.
pub open spec fn insert_position(sorted: Seq<FileView>, file: FileView) -> int
    decreases sorted.len(),
{
    if sorted.len() == 0 {
        0
    } else if name_le(sorted.last().name, file.name) {
        sorted.len() as int
    } else {
        insert_position(sorted.drop_last(), file)
    }
}

/// `sorted` with `file` put in at its insert position.
pub open spec fn placed(sorted: Seq<FileView>, file: FileView) -> Seq<FileView> {
    sorted.insert(insert_position(sorted, file), file)
}

/// The records of `files` in ascending order of name. Each record in turn is
/// put behind those before it whose name is at most its own, so records of
/// one name stay in the order they had.
pub open spec fn sorted_by_name(files: Seq<FileView>) -> Seq<FileView>
    decreases files.len(),
{
    if files.len() == 0 {
        Seq::empty()
    } else {
        placed(sorted_by_name(files.drop_last()), files.last())
    }
}

/// The insert position lies within the sequence or at its end; the record in
/// front of it, if any, has a name at most the new one, and every record from
/// it on has a greater name.
pub proof fn lemma_insert_position(sorted: Seq<FileView>, file: FileView)
    ensures
        0 <= insert_position(sorted, file) <= sorted.len(),
        insert_position(sorted, file) > 0 ==> name_le(
            sorted[insert_position(sorted, file) - 1].name,
            file.name,
        ),
        forall|k: int|
            insert_position(sorted, file) <= k < sorted.len() ==> !name_le(
                (#[trigger] sorted[k]).name,
                file.name,
            ),
    decreases sorted.len(),
{
    if sorted.len() > 0 && !name_le(sorted.last().name, file.name) {
        lemma_insert_position(sorted.drop_last(), file);
        assert forall|k: int| insert_position(sorted, file) <= k < sorted.len() implies !name_le(
            (#[trigger] sorted[k]).name,
            file.name,
        ) by {
            if k < sorted.len() - 1 {
                assert(sorted.drop_last()[k] == sorted[k]);
            }
        }
    }
}

/// Putting a record at its insert position keeps an ascending sequence
/// ascending.
pub proof fn lemma_insert_keeps_order(sorted: Seq<FileView>, file: FileView)
    requires
        names_ascend(sorted),
    ensures
        names_ascend(sorted.insert(insert_position(sorted, file), file)),
{
    let at = insert_position(sorted, file);
    let out = sorted.insert(at, file);
    lemma_insert_position(sorted, file);
    assert forall|i: int, j: int| 0 <= i <= j < out.len() implies name_le(
        (#[trigger] out[i]).name,
        (#[trigger] out[j]).name,
    ) by {
        if i < at && j < at {
            assert(out[i] == sorted[i] && out[j] == sorted[j]);
        } else if i < at && j == at {
            assert(out[i] == sorted[i]);
            assert(name_le(sorted[i].name, sorted[at - 1].name));
            lemma_name_le_total_order(sorted[i].name, sorted[at - 1].name, file.name);
        } else if i < at && j > at {
            assert(out[i] == sorted[i] && out[j] == sorted[j - 1]);
        } else if i == at && j == at {
            lemma_name_le_total_order(file.name, file.name, file.name);
        } else if i == at && j > at {
            assert(out[j] == sorted[j - 1]);
            lemma_name_le_total_order(file.name, sorted[j - 1].name, file.name);
        } else {
            assert(out[i] == sorted[i - 1] && out[j] == sorted[j - 1]);
        }
    }
}

/// Sorting gives an ascending sequence that holds exactly the records it was
/// given, each as often as before.
pub proof fn lemma_sorted_by_name(files: Seq<FileView>)
    ensures
        names_ascend(sorted_by_name(files)),
        sorted_by_name(files).len() == files.len(),
        sorted_by_name(files).to_multiset() == files.to_multiset(),
    decreases files.len(),
{
    if files.len() == 0 {
        assert(sorted_by_name(files) =~= files);
    } else {
        let sorted = sorted_by_name(files.drop_last());
        lemma_sorted_by_name(files.drop_last());
        lemma_insert_position(sorted, files.last());
        lemma_insert_keeps_order(sorted, files.last());
        to_multiset_insert(sorted, insert_position(sorted, files.last()), files.last());
        to_multiset_build(files.drop_last(), files.last());
        assert(files.drop_last().push(files.last()) =~= files);
    }
}

/// Sorting neither adds a record nor loses one.
pub proof fn lemma_sorted_members(files: Seq<FileView>, file: FileView)
    ensures
        sorted_by_name(files).contains(file) <==> files.contains(file),
{
    lemma_sorted_by_name(files);
    to_multiset_contains(sorted_by_name(files), file);
    to_multiset_contains(files, file);
}

/// A sequence that is ascending already is its own sorted form.
pub proof fn lemma_sorted_fixed_point(files: Seq<FileView>)
    requires
        names_ascend(files),
    ensures
        sorted_by_name(files) == files,
    decreases files.len(),
{
    if files.len() == 0 {
        assert(sorted_by_name(files) =~= files);
    } else {
        let front = files.drop_last();
        assert(names_ascend(front)) by {
            assert forall|i: int, j: int| 0 <= i <= j < front.len() implies name_le(
                (#[trigger] front[i]).name,
                (#[trigger] front[j]).name,
            ) by {
                assert(front[i] == files[i] && front[j] == files[j]);
            }
        }
        lemma_sorted_fixed_point(front);
        if front.len() > 0 {
            assert(front.last() == files[front.len() - 1]);
            assert(name_le(files[front.len() - 1].name, files[files.len() - 1].name));
        }
        assert(insert_position(front, files.last()) == front.len());
        assert(front.insert(front.len() as int, files.last()) =~= files);
    }
}

/// Sorting twice is sorting once.
pub proof fn lemma_sorted_idempotent(files: Seq<FileView>)
    ensures
        sorted_by_name(sorted_by_name(files)) == sorted_by_name(files),
{
    lemma_sorted_by_name(files);
    lemma_sorted_fixed_point(sorted_by_name(files));
}

/// Whether no two records of the sequence have the same name.
pub open spec fn names_distinct(files: Seq<FileView>) -> bool {
    forall|i: int, j: int|
        0 <= i < j < files.len() ==> (#[trigger] files[i]).name != (#[trigger] files[j]).name
}

/// Whether two sequences hold the same records, in whatever order.
pub open spec fn same_records(a: Seq<FileView>, b: Seq<FileView>) -> bool {
    forall|file: FileView| a.contains(file) <==> b.contains(file)
}

/// Records with distinct names have one ascending arrangement only: two
/// ascending sequences of the same records, no name twice, are equal.
pub proof fn lemma_ascending_unique(a: Seq<FileView>, b: Seq<FileView>)
    requires
        names_ascend(a),
        names_ascend(b),
        names_distinct(a),
        names_distinct(b),
        same_records(a, b),
    ensures
        a == b,
    decreases a.len(),
{
    if a.len() == 0 {
        if b.len() > 0 {
            assert(b.contains(b[0]));
            assert(a.contains(b[0]));
        }
        assert(a =~= b);
    } else {
        let top = a.len() - 1;
        assert(a.contains(a[top]));
        assert(b.contains(a[top]));
        let k = choose|k: int| 0 <= k < b.len() && b[k] == a[top];
        let end = b.len() - 1;
        assert(b.contains(b[end]));
        assert(a.contains(b[end]));
        let m = choose|m: int| 0 <= m < a.len() && a[m] == b[end];
        // each last record is at most the other, so they share a name
        assert(name_le(b[k].name, b[end].name));
        assert(name_le(a[m].name, a[top].name));
        lemma_name_le_total_order(a[top].name, b[end].name, a[top].name);
        assert(a[top].name == b[end].name);
        assert(m == top);
        assert(a[top] == b[end]);
        let front = a.drop_last();
        let other = b.drop_last();
        assert forall|file: FileView| front.contains(file) <==> other.contains(file) by {
            if front.contains(file) {
                let i = choose|i: int| 0 <= i < front.len() && front[i] == file;
                assert(a[i] == file);
                assert(a.contains(file));
                assert(b.contains(file));
                let j = choose|j: int| 0 <= j < b.len() && b[j] == file;
                assert(a[i].name != a[top].name);
                assert(j != end);
                assert(other[j] == file);
            }
            if other.contains(file) {
                let j = choose|j: int| 0 <= j < other.len() && other[j] == file;
                assert(b[j] == file);
                assert(b.contains(file));
                assert(a.contains(file));
                let i = choose|i: int| 0 <= i < a.len() && a[i] == file;
                assert(b[j].name != b[end].name);
                assert(i != top);
                assert(front[i] == file);
            }
        }
        assert(names_ascend(front)) by {
            assert forall|i: int, j: int| 0 <= i <= j < front.len() implies name_le(
                (#[trigger] front[i]).name,
                (#[trigger] front[j]).name,
            ) by {
                assert(front[i] == a[i] && front[j] == a[j]);
            }
        }
        assert(names_ascend(other)) by {
            assert forall|i: int, j: int| 0 <= i <= j < other.len() implies name_le(
                (#[trigger] other[i]).name,
                (#[trigger] other[j]).name,
            ) by {
                assert(other[i] == b[i] && other[j] == b[j]);
            }
        }
        assert(names_distinct(front)) by {
            assert forall|i: int, j: int| 0 <= i < j < front.len() implies (
            #[trigger] front[i]).name != (#[trigger] front[j]).name by {
                assert(front[i] == a[i] && front[j] == a[j]);
            }
        }
        assert(names_distinct(other)) by {
            assert forall|i: int, j: int| 0 <= i < j < other.len() implies (
            #[trigger] other[i]).name != (#[trigger] other[j]).name by {
                assert(other[i] == b[i] && other[j] == b[j]);
            }
        }
        lemma_ascending_unique(front, other);
        assert(a =~= front.push(a[top]));
        assert(b =~= other.push(b[end]));
    }
}

/// Sorting records with distinct names leaves the names distinct.
pub proof fn lemma_sorted_names_distinct(files: Seq<FileView>)
    requires
        names_distinct(files),
    ensures
        names_distinct(sorted_by_name(files)),
    decreases files.len(),
{
    if files.len() > 0 {
        let front = files.drop_last();
        let last = files.last();
        assert(names_distinct(front)) by {
            assert forall|i: int, j: int| 0 <= i < j < front.len() implies (
            #[trigger] front[i]).name != (#[trigger] front[j]).name by {
                assert(front[i] == files[i] && front[j] == files[j]);
            }
        }
        lemma_sorted_names_distinct(front);
        let sorted = sorted_by_name(front);
        let at = insert_position(sorted, last);
        lemma_insert_position(sorted, last);
        let out = sorted.insert(at, last);
        assert forall|i: int| 0 <= i < sorted.len() implies (#[trigger] sorted[i]).name
            != last.name by {
            assert(sorted.contains(sorted[i]));
            lemma_sorted_members(front, sorted[i]);
            let k = choose|k: int| 0 <= k < front.len() && front[k] == sorted[i];
            assert(files[k] == sorted[i]);
            assert(files[k].name != files[files.len() - 1].name);
        }
        assert forall|i: int, j: int| 0 <= i < j < out.len() implies (#[trigger] out[i]).name != (
        #[trigger] out[j]).name by {
            let x = if i < at {
                i
            } else {
                i - 1
            };
            let y = if j < at {
                j
            } else {
                j - 1
            };
            if i == at {
                assert(out[j] == sorted[y]);
            } else if j == at {
                assert(out[i] == sorted[x]);
            } else {
                assert(out[i] == sorted[x] && out[j] == sorted[y]);
            }
        }
    }
}

/// The predicate "has the name `name`".
pub open spec fn has_name(name: Seq<char>) -> spec_fn(FileView) -> bool {
    |file: FileView| file.name == name
}

/// The records of `files` with the name `name`, in the order they have in
/// `files`.
pub open spec fn named(files: Seq<FileView>, name: Seq<char>) -> Seq<FileView> {
    files.filter(has_name(name))
}

/// Among records none of which has the name, there is none with the name.
proof fn lemma_named_none(files: Seq<FileView>, name: Seq<char>)
    requires
        forall|i: int| 0 <= i < files.len() ==> (#[trigger] files[i]).name != name,
    ensures
        named(files, name) == Seq::<FileView>::empty(),
    decreases files.len(),
{
    reveal(Seq::filter);
    if files.len() > 0 {
        let front = files.drop_last();
        assert forall|i: int| 0 <= i < front.len() implies (#[trigger] front[i]).name != name by {
            assert(front[i] == files[i]);
        }
        lemma_named_none(front, name);
        assert(files.last() == files[files.len() - 1]);
    }
}

/// Sorting is stable: the records of any one name come out in the order in
/// which they went in.
pub proof fn lemma_sorted_stable(files: Seq<FileView>, name: Seq<char>)
    ensures
        named(sorted_by_name(files), name) == named(files, name),
    decreases files.len(),
{
    if files.len() == 0 {
        assert(sorted_by_name(files) =~= files);
    } else {
        let front = files.drop_last();
        let last = files.last();
        let sorted = sorted_by_name(front);
        let at = insert_position(sorted, last);
        let out = sorted.insert(at, last);
        let before = sorted.take(at);
        let after = sorted.skip(at);
        let wanted = has_name(name);
        lemma_sorted_stable(front, name);
        lemma_insert_position(sorted, last);
        assert(out =~= before + seq![last] + after);
        assert(sorted =~= before + after);
        Seq::filter_distributes_over_add(before + seq![last], after, wanted);
        Seq::filter_distributes_over_add(before, seq![last], wanted);
        Seq::filter_distributes_over_add(before, after, wanted);
        before.lemma_filter_push(last, wanted);
        assert(before.push(last) =~= before + seq![last]);
        front.lemma_filter_push(last, wanted);
        assert(front.push(last) =~= files);
        if last.name == name {
            assert forall|i: int| 0 <= i < after.len() implies (#[trigger] after[i]).name
                != name by {
                assert(after[i] == sorted[at + i]);
                lemma_name_le_total_order(name, name, name);
            }
            lemma_named_none(after, name);
            assert(named(out, name) =~= named(sorted, name).push(last));
        } else {
            assert(named(out, name) =~= named(sorted, name));
        }
    }
}

/// The sorted order of records with distinct names depends on the records
/// alone, not on the order in which they were given.
pub proof fn lemma_sorted_canonical(a: Seq<FileView>, b: Seq<FileView>)
    requires
        names_distinct(a),
        names_distinct(b),
        same_records(a, b),
    ensures
        sorted_by_name(a) == sorted_by_name(b),
{
    lemma_sorted_by_name(a);
    lemma_sorted_by_name(b);
    lemma_sorted_names_distinct(a);
    lemma_sorted_names_distinct(b);
    assert forall|file: FileView|
        sorted_by_name(a).contains(file) <==> sorted_by_name(b).contains(file) by {
        lemma_sorted_members(a, file);
        lemma_sorted_members(b, file);
    }
    lemma_ascending_unique(sorted_by_name(a), sorted_by_name(b));
}

/// Two sequences woven into one from their ends: the greater of the two
/// last records goes last, and of two last records with names in order the
/// one of `right` goes last. For ascending sequences the result is ascending,
/// with the records of `left` in front of those of `right` under any one
/// name.
pub open spec fn merged(left: Seq<FileView>, right: Seq<FileView>) -> Seq<FileView>
    decreases left.len() + right.len(),
{
    if left.len() == 0 {
        right
    } else if right.len() == 0 {
        left
    } else if name_le(left.last().name, right.last().name) {
        merged(left, right.drop_last()).push(right.last())
    } else {
        merged(left.drop_last(), right).push(left.last())
    }
}

/// How a record is placed, seen from the end of the sequence: behind the
/// last record if that has a name at most its own, else somewhere in front
/// of it.
proof fn lemma_placed_step(sorted: Seq<FileView>, file: FileView)
    ensures
        sorted.len() == 0 ==> placed(sorted, file) == seq![file],
        sorted.len() > 0 && name_le(sorted.last().name, file.name) ==> placed(sorted, file)
            == sorted.push(file),
        sorted.len() > 0 && !name_le(sorted.last().name, file.name) ==> placed(sorted, file)
            == placed(sorted.drop_last(), file).push(sorted.last()),
{
    if sorted.len() == 0 {
        assert(placed(sorted, file) =~= seq![file]);
    } else if name_le(sorted.last().name, file.name) {
        assert(placed(sorted, file) =~= sorted.push(file));
    } else {
        lemma_insert_position(sorted.drop_last(), file);
        assert(placed(sorted, file) =~= placed(sorted.drop_last(), file).push(sorted.last()));
    }
}

/// Placing a record into a weave is weaving with the record placed into the
/// right-hand part.
proof fn lemma_placed_into_merged(left: Seq<FileView>, right: Seq<FileView>, file: FileView)
    ensures
        placed(merged(left, right), file) == merged(left, placed(right, file)),
    decreases left.len() + right.len(),
{
    lemma_placed_step(right, file);
    lemma_placed_step(merged(left, right), file);
    if left.len() == 0 {
    } else if right.len() == 0 {
        // the weave is `left`, and the record alone is the right-hand part
        assert(seq![file].drop_last() =~= Seq::<FileView>::empty());
        assert(seq![file].last() == file);
        if name_le(left.last().name, file.name) {
            assert(merged(left, seq![file]) == merged(left, Seq::empty()).push(file));
        } else {
            lemma_placed_into_merged(left.drop_last(), right, file);
            lemma_placed_step(left.drop_last(), file);
            assert(merged(left.drop_last(), right) =~= left.drop_last());
        }
    } else {
        let a = left.last();
        let b = right.last();
        if name_le(b.name, file.name) {
            let grown = right.push(file);
            assert(grown.drop_last() =~= right);
            assert(grown.last() == file);
            if name_le(a.name, file.name) {
                assert(merged(left, grown) == merged(left, right).push(file));
            } else {
                // b <= file < a
                lemma_name_le_total_order(a.name, b.name, file.name);
                assert(!name_le(a.name, b.name));
                lemma_placed_into_merged(left.drop_last(), right, file);
                assert(merged(left, right).drop_last() =~= merged(left.drop_last(), right));
            }
        } else {
            let grown = placed(right.drop_last(), file).push(b);
            assert(grown.drop_last() =~= placed(right.drop_last(), file));
            assert(grown.last() == b);
            if name_le(a.name, b.name) {
                lemma_placed_into_merged(left, right.drop_last(), file);
                assert(merged(left, right).drop_last() =~= merged(left, right.drop_last()));
            } else {
                // file < b < a
                lemma_name_le_total_order(b.name, file.name, b.name);
                lemma_name_le_total_order(a.name, file.name, b.name);
                assert(!name_le(a.name, file.name));
                lemma_placed_into_merged(left.drop_last(), right, file);
                assert(merged(left, right).drop_last() =~= merged(left.drop_last(), right));
            }
        }
    }
}

/// The sorted form of a sequence in two parts is the weave of the sorted
/// forms of the parts.
pub proof fn lemma_sorted_concat(left: Seq<FileView>, right: Seq<FileView>)
    ensures
        sorted_by_name(left + right) == merged(sorted_by_name(left), sorted_by_name(right)),
    decreases right.len(),
{
    if right.len() == 0 {
        assert(left + right =~= left);
        assert(sorted_by_name(right) =~= Seq::<FileView>::empty());
    } else {
        let whole = left + right;
        assert(whole.drop_last() =~= left + right.drop_last());
        assert(whole.last() == right.last());
        lemma_sorted_concat(left, right.drop_last());
        lemma_placed_into_merged(
            sorted_by_name(left),
            sorted_by_name(right.drop_last()),
            right.last(),
        );
    }
}

/// Weaves two vectors of records into one.
fn merge(left: Vec<File>, right: Vec<File>) -> (out: Vec<File>)
    ensures
        views(out@) == merged(views(left@), views(right@)),
{
    let ghost whole = merged(views(left@), views(right@));
    let mut left = left;
    let mut right = right;
    // the records taken so far, the greatest first
    let mut taken: Vec<File> = Vec::new();
    proof {
        assert(views(taken@).reverse() =~= Seq::<FileView>::empty());
        assert(whole =~= merged(views(left@), views(right@)) + views(taken@).reverse());
    }
    while left.len() > 0 && right.len() > 0
        invariant
            whole == merged(views(left@), views(right@)) + views(taken@).reverse(),
        decreases left.len() + right.len(),
    {
        let ghost a = views(left@);
        let ghost b = views(right@);
        let ghost stack = views(taken@);
        proof {
            assert(a.last() == left@[left.len() - 1]@);
            assert(b.last() == right@[right.len() - 1]@);
        }
        let from_right = name_precedes(
            left[left.len() - 1].name.as_str(),
            right[right.len() - 1].name.as_str(),
        );
        if from_right {
            let file = right.pop().unwrap();
            taken.push(file);
            proof {
                assert(views(right@) =~= b.drop_last());
                assert(views(taken@).reverse() =~= seq![b.last()] + stack.reverse());
                assert(whole =~= merged(a, b.drop_last()) + views(taken@).reverse());
            }
        } else {
            let file = left.pop().unwrap();
            taken.push(file);
            proof {
                assert(views(left@) =~= a.drop_last());
                assert(views(taken@).reverse() =~= seq![a.last()] + stack.reverse());
                assert(whole =~= merged(a.drop_last(), b) + views(taken@).reverse());
            }
        }
    }
    let ghost a = views(left@);
    let ghost b = views(right@);
    let mut out = left;
    out.append(&mut right);
    proof {
        assert(views(out@) =~= a + b);
        assert(merged(a, b) =~= a + b);
    }
    while taken.len() > 0
        invariant
            whole == views(out@) + views(taken@).reverse(),
        decreases taken.len(),
    {
        let ghost done = views(out@);
        let ghost stack = views(taken@);
        let file = taken.pop().unwrap();
        out.push(file);
        proof {
            assert(views(taken@) =~= stack.drop_last());
            assert(stack.reverse() =~= seq![stack.last()] + stack.drop_last().reverse());
            assert(views(out@) =~= done.push(stack.last()));
            assert(whole =~= views(out@) + views(taken@).reverse());
        }
    }
    proof {
        assert(views(taken@).reverse() =~= Seq::<FileView>::empty());
        assert(whole =~= views(out@));
    }
    out
}

/// Puts `files` in ascending order of name. Records of one name keep their
/// order.
pub fn sort_by_name(files: Vec<File>) -> (sorted: Vec<File>)
    ensures
        views(sorted@) == sorted_by_name(views(files@)),
        sorted.len() == files.len(),
        names_ascend(views(sorted@)),
        views(sorted@).to_multiset() == views(files@).to_multiset(),
    decreases files.len(),
{
    let ghost all = views(files@);
    proof {
        lemma_sorted_by_name(all);
    }
    if files.len() < 2 {
        proof {
            assert(names_ascend(all)) by {
                assert forall|i: int, j: int| 0 <= i <= j < all.len() implies name_le(
                    (#[trigger] all[i]).name,
                    (#[trigger] all[j]).name,
                ) by {
                    lemma_name_le_total_order(all[i].name, all[i].name, all[i].name);
                }
            }
            lemma_sorted_fixed_point(all);
        }
        return files;
    }
    let mut left = files;
    let middle = left.len() / 2;
    let right = left.split_off(middle);
    proof {
        assert(all =~= views(left@) + views(right@));
        lemma_sorted_concat(views(left@), views(right@));
    }
    let left = sort_by_name(left);
    let right = sort_by_name(right);
    merge(left, right)
}

} // verus!
