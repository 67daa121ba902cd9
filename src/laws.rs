use vstd::prelude::*;
use crate::models::Student;
use crate::store::{
    count_in, in_class, outside_class, referenced_by_student, student_renamed, Database, lemma_count_push, lemma_count_without_class, lemma_count_zero,
};

verus! {

/// In every well-formed store, each class's student count is the number of
/// students that reference it; every operation keeps the store well formed,
/// so the count after any sequence of creations and deletions is the number
/// of the class's students then.
pub proof fn lemma_student_count_is_live(db: Database, i: int)
    requires
        db.wf(),
        0 <= i < db@.classes.len(),
    ensures
        db@.classes[i].student_count == count_in(db@.students, db@.classes[i].id@),
{
}

/// The students `added` in a class that no student of `before` referenced
/// are exactly what its count holds afterwards: N creations give a count of N.
pub proof fn lemma_count_after_creations(db: Database, i: int, before: Seq<Student>, added: Seq<Student>)
    requires
        db.wf(),
        0 <= i < db@.classes.len(),
        db@.students == before + added,
        !referenced_by_student(before, db@.classes[i].id@),
        forall|k: int| 0 <= k < added.len() ==> (#[trigger] added[k]).class_id@ == db@.classes[i].id@,
    ensures
        db@.classes[i].student_count == added.len(),
{
    let cid = db@.classes[i].id@;
    lemma_count_zero(before, cid);
    lemma_count_of_added(before, added, cid);
}

proof fn lemma_count_of_added(before: Seq<Student>, added: Seq<Student>, cid: Seq<char>)
    requires
        forall|k: int| 0 <= k < added.len() ==> (#[trigger] added[k]).class_id@ == cid,
    ensures
        count_in(before + added, cid) == count_in(before, cid) + added.len(),
    decreases added.len(),
{
    if added.len() == 0 {
        assert(before + added =~= before);
    } else {
        let n = added.len() - 1;
        let d = added.drop_last();
        assert(before + added =~= (before + d).push(added[n]));
        lemma_count_of_added(before, d, cid);
        lemma_count_push(before + d, added[n], cid);
    }
}

/// Renaming the class `id` to `name` gives that name to exactly the
/// students whose class id is `id`, and changes nothing else.
pub proof fn lemma_rename_reaches_exactly_the_class(students: Seq<Student>, id: Seq<char>, name: String, k: int)
    requires
        0 <= k < students.len(),
    ensures
        ({
            let t = students.map_values(|s: Student| student_renamed(s, id, Some(name)))[k];
            &&& students[k].class_id@ == id ==> t == (Student { class_name: name, ..students[k] })
            &&& students[k].class_id@ != id ==> t == students[k]
        }),
{
}

/// Once the students of the class `id` are deleted, none is left to list
/// under that class.
pub proof fn lemma_deleted_class_has_no_students(students: Seq<Student>, id: Seq<char>)
    ensures
        students.filter(outside_class(id)).filter(in_class(id)).len() == 0,
{
    lemma_count_without_class(students, id, id);
}

} // verus!
