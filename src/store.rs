use vstd::prelude::*;
use crate::error::StoreError;
use crate::models::{
    Class, CreateClassRequest, CreatePurchaseRequest, CreateProductRequest, CreateStudentRequest,
    Product, PurchaseRecord, Student, StoredStudent, UpdateClassRequest, UpdateProductRequest,
    UpdateStudentRequest,
};
use crate::ordering::{
    classes_newest_first, records_newest_first, sort_classes, sort_records, sort_students,
    students_ordered,
};
use crate::system::{new_id, now_micros};

verus! {

broadcast use vstd::seq_lib::group_seq_lib_default;

/// The contents of a store: the rows of each of its four tables.
pub ghost struct StoreView {
    pub classes: Seq<Class>,
    pub students: Seq<Student>,
    pub products: Seq<Product>,
    pub records: Seq<PurchaseRecord>,
}

/// The store of classes, students, products and purchase records.
pub struct Database {
    classes: Vec<Class>,
    students: Vec<Student>,
    products: Vec<Product>,
    records: Vec<PurchaseRecord>,
}

impl View for Database {
    type V = StoreView;

    closed spec fn view(&self) -> StoreView {
        StoreView {
            classes: self.classes@,
            students: self.students@,
            products: self.products@,
            records: self.records@,
        }
    }
}

/// Whether a student belongs to the class with id `cid`.
pub open spec fn in_class(cid: Seq<char>) -> spec_fn(Student) -> bool {
    |s: Student| s.class_id@ == cid
}

/// Whether a student belongs to some class other than `cid`.
pub open spec fn outside_class(cid: Seq<char>) -> spec_fn(Student) -> bool {
    |s: Student| s.class_id@ != cid
}

/// Whether a product belongs to the class with id `cid`.
pub open spec fn product_in_class(cid: Seq<char>) -> spec_fn(Product) -> bool {
    |p: Product| p.class_id@ == cid
}

/// Whether a purchase record belongs to the class with id `cid`.
pub open spec fn record_in_class(cid: Seq<char>) -> spec_fn(PurchaseRecord) -> bool {
    |p: PurchaseRecord| p.class_id@ == cid
}

/// The number of students that reference the class with id `cid`.
pub open spec fn count_in(students: Seq<Student>, cid: Seq<char>) -> nat {
    students.filter(in_class(cid)).len()
}

pub open spec fn has_class(s: Seq<Class>, id: Seq<char>) -> bool {
    exists|i: int| 0 <= i < s.len() && (#[trigger] s[i]).id@ == id
}

pub open spec fn has_student(s: Seq<Student>, id: Seq<char>) -> bool {
    exists|i: int| 0 <= i < s.len() && (#[trigger] s[i]).id@ == id
}

pub open spec fn has_product(s: Seq<Product>, id: Seq<char>) -> bool {
    exists|i: int| 0 <= i < s.len() && (#[trigger] s[i]).id@ == id
}

pub open spec fn has_record(s: Seq<PurchaseRecord>, id: Seq<char>) -> bool {
    exists|i: int| 0 <= i < s.len() && (#[trigger] s[i]).id@ == id
}

/// Whether some student references the class id `id`.
pub open spec fn referenced_by_student(s: Seq<Student>, id: Seq<char>) -> bool {
    exists|i: int| 0 <= i < s.len() && (#[trigger] s[i]).class_id@ == id
}

/// The position of the class with id `id`.
pub open spec fn class_pos(s: Seq<Class>, id: Seq<char>) -> int {
    choose|i: int| 0 <= i < s.len() && (#[trigger] s[i]).id@ == id
}

pub open spec fn student_pos(s: Seq<Student>, id: Seq<char>) -> int {
    choose|i: int| 0 <= i < s.len() && (#[trigger] s[i]).id@ == id
}

pub open spec fn product_pos(s: Seq<Product>, id: Seq<char>) -> int {
    choose|i: int| 0 <= i < s.len() && (#[trigger] s[i]).id@ == id
}

pub open spec fn record_pos(s: Seq<PurchaseRecord>, id: Seq<char>) -> int {
    choose|i: int| 0 <= i < s.len() && (#[trigger] s[i]).id@ == id
}

pub open spec fn class_ids_unique(s: Seq<Class>) -> bool {
    forall|a: int, b: int| 0 <= a < b < s.len() ==> (#[trigger] s[a]).id@ != (#[trigger] s[b]).id@
}

pub open spec fn student_ids_unique(s: Seq<Student>) -> bool {
    forall|a: int, b: int| 0 <= a < b < s.len() ==> (#[trigger] s[a]).id@ != (#[trigger] s[b]).id@
}

pub open spec fn product_ids_unique(s: Seq<Product>) -> bool {
    forall|a: int, b: int| 0 <= a < b < s.len() ==> (#[trigger] s[a]).id@ != (#[trigger] s[b]).id@
}

pub open spec fn record_ids_unique(s: Seq<PurchaseRecord>) -> bool {
    forall|a: int, b: int| 0 <= a < b < s.len() ==> (#[trigger] s[a]).id@ != (#[trigger] s[b]).id@
}

/// Every class's student count is the number of students that reference it.
pub open spec fn counts_live(classes: Seq<Class>, students: Seq<Student>) -> bool {
    forall|i: int| 0 <= i < classes.len() ==> (#[trigger] classes[i]).student_count == count_in(students, classes[i].id@)
}

/// The classes with every student count recomputed over `students`.
pub open spec fn recounted(classes: Seq<Class>, students: Seq<Student>) -> Seq<Class> {
    classes.map_values(|c: Class| Class { student_count: count_in(students, c.id@) as usize, ..c })
}

impl StoreView {
    pub open spec fn wf(self) -> bool {
        &&& class_ids_unique(self.classes)
        &&& student_ids_unique(self.students)
        &&& product_ids_unique(self.products)
        &&& record_ids_unique(self.records)
        &&& counts_live(self.classes, self.students)
    }
}

impl Database {
    /// The store's invariant: ids are unique within each table and every
    /// class's student count is live.
    pub open spec fn wf(&self) -> bool {
        self@.wf()
    }
}

/// Whether two strings hold the same characters.
pub fn same_text(a: &str, b: &str) -> (r: bool)
    ensures
        r == (a@ == b@),
{
    let n = a.unicode_len();
    if n != b.unicode_len() {
        return false;
    }
    let mut i: usize = 0;
    while i < n
        invariant
            n == a@.len(),
            n == b@.len(),
            i <= n,
            forall|k: int| 0 <= k < i ==> a@[k] == b@[k],
        decreases n - i,
    {
        if a.get_char(i) != b.get_char(i) {
            return false;
        }
        i = i + 1;
    }
    assert(a@ =~= b@);
    true
}

pub proof fn lemma_count_single(x: Student, cid: Seq<char>)
    ensures
        count_in(seq![x], cid) == if x.class_id@ == cid { 1nat } else { 0nat },
{
    let e = Seq::<Student>::empty();
    assert(seq![x] == e.push(x));
    e.lemma_filter_push(x, in_class(cid));
    assert(e.filter(in_class(cid)).len() == 0);
}

pub proof fn lemma_count_push(s: Seq<Student>, x: Student, cid: Seq<char>)
    ensures
        count_in(s.push(x), cid) == count_in(s, cid) + if x.class_id@ == cid { 1nat } else { 0nat },
{
    s.lemma_filter_push(x, in_class(cid));
}

pub proof fn lemma_count_update(s: Seq<Student>, j: int, x: Student, cid: Seq<char>)
    requires
        0 <= j < s.len(),
    ensures
        count_in(s.update(j, x), cid) + (if s[j].class_id@ == cid { 1nat } else { 0nat })
            == count_in(s, cid) + (if x.class_id@ == cid { 1nat } else { 0nat }),
{
    let a = s.take(j);
    let b = s.skip(j + 1);
    assert(s == a + seq![s[j]] + b);
    assert(s.update(j, x) == a + seq![x] + b);
    Seq::filter_distributes_over_add(a, seq![s[j]], in_class(cid));
    Seq::filter_distributes_over_add(a + seq![s[j]], b, in_class(cid));
    Seq::filter_distributes_over_add(a, seq![x], in_class(cid));
    Seq::filter_distributes_over_add(a + seq![x], b, in_class(cid));
    lemma_count_single(s[j], cid);
    lemma_count_single(x, cid);
}

pub proof fn lemma_count_remove(s: Seq<Student>, j: int, cid: Seq<char>)
    requires
        0 <= j < s.len(),
    ensures
        count_in(s.remove(j), cid) + (if s[j].class_id@ == cid { 1nat } else { 0nat }) == count_in(s, cid),
{
    let a = s.take(j);
    let b = s.skip(j + 1);
    assert(s == a + seq![s[j]] + b);
    assert(s.remove(j) == a + b);
    Seq::filter_distributes_over_add(a, seq![s[j]], in_class(cid));
    Seq::filter_distributes_over_add(a + seq![s[j]], b, in_class(cid));
    Seq::filter_distributes_over_add(a, b, in_class(cid));
    lemma_count_single(s[j], cid);
}

/// Students that keep their class ids keep every class's count.
pub proof fn lemma_count_same_classes(s: Seq<Student>, t: Seq<Student>, cid: Seq<char>)
    requires
        s.len() == t.len(),
        forall|k: int| 0 <= k < s.len() ==> (#[trigger] s[k]).class_id@ == t[k].class_id@,
    ensures
        count_in(s, cid) == count_in(t, cid),
    decreases s.len(),
{
    if s.len() > 0 {
        let n = s.len() - 1;
        assert(s == s.drop_last().push(s[n]));
        assert(t == t.drop_last().push(t[n]));
        lemma_count_same_classes(s.drop_last(), t.drop_last(), cid);
        lemma_count_push(s.drop_last(), s[n], cid);
        lemma_count_push(t.drop_last(), t[n], cid);
    }
}

/// Removing the students of one class leaves the counts of the others.
pub proof fn lemma_count_without_class(s: Seq<Student>, id: Seq<char>, cid: Seq<char>)
    ensures
        count_in(s.filter(outside_class(id)), cid) == if cid == id { 0 } else { count_in(s, cid) },
    decreases s.len(),
{
    if s.len() > 0 {
        let n = s.len() - 1;
        let d = s.drop_last();
        assert(s == d.push(s[n]));
        lemma_count_without_class(d, id, cid);
        d.lemma_filter_push(s[n], outside_class(id));
        lemma_count_push(d, s[n], cid);
        lemma_count_push(d.filter(outside_class(id)), s[n], cid);
    } else {
        assert(s.filter(outside_class(id)).len() == 0);
    }
}

impl Database {
    /// An empty store.
    pub fn empty() -> (r: Database)
        ensures
            r.wf(),
            r@.classes.len() == 0,
            r@.students.len() == 0,
            r@.products.len() == 0,
            r@.records.len() == 0,
    {
        Database { classes: Vec::new(), students: Vec::new(), products: Vec::new(), records: Vec::new() }
    }

    fn find_class(&self, id: &str) -> (r: Option<usize>)
        ensures
            match r {
                Some(i) => i < self@.classes.len() && self@.classes[i as int].id@ == id@,
                None => !has_class(self@.classes, id@),
            },
    {
        let mut i: usize = 0;
        while i < self.classes.len()
            invariant
                i <= self.classes.len(),
                forall|k: int| 0 <= k < i ==> (#[trigger] self.classes@[k]).id@ != id@,
            decreases self.classes.len() - i,
        {
            if same_text(self.classes[i].id.as_str(), id) {
                return Some(i);
            }
            i = i + 1;
        }
        None
    }

    fn find_student(&self, id: &str) -> (r: Option<usize>)
        ensures
            match r {
                Some(i) => i < self@.students.len() && self@.students[i as int].id@ == id@,
                None => !has_student(self@.students, id@),
            },
    {
        let mut i: usize = 0;
        while i < self.students.len()
            invariant
                i <= self.students.len(),
                forall|k: int| 0 <= k < i ==> (#[trigger] self.students@[k]).id@ != id@,
            decreases self.students.len() - i,
        {
            if same_text(self.students[i].id.as_str(), id) {
                return Some(i);
            }
            i = i + 1;
        }
        None
    }

    fn find_product(&self, id: &str) -> (r: Option<usize>)
        ensures
            match r {
                Some(i) => i < self@.products.len() && self@.products[i as int].id@ == id@,
                None => !has_product(self@.products, id@),
            },
    {
        let mut i: usize = 0;
        while i < self.products.len()
            invariant
                i <= self.products.len(),
                forall|k: int| 0 <= k < i ==> (#[trigger] self.products@[k]).id@ != id@,
            decreases self.products.len() - i,
        {
            if same_text(self.products[i].id.as_str(), id) {
                return Some(i);
            }
            i = i + 1;
        }
        None
    }

    fn find_record(&self, id: &str) -> (r: Option<usize>)
        ensures
            match r {
                Some(i) => i < self@.records.len() && self@.records[i as int].id@ == id@,
                None => !has_record(self@.records, id@),
            },
    {
        let mut i: usize = 0;
        while i < self.records.len()
            invariant
                i <= self.records.len(),
                forall|k: int| 0 <= k < i ==> (#[trigger] self.records@[k]).id@ != id@,
            decreases self.records.len() - i,
        {
            if same_text(self.records[i].id.as_str(), id) {
                return Some(i);
            }
            i = i + 1;
        }
        None
    }

    fn is_class_referenced(&self, id: &str) -> (r: bool)
        ensures
            r == referenced_by_student(self@.students, id@),
    {
        let mut i: usize = 0;
        while i < self.students.len()
            invariant
                i <= self.students.len(),
                forall|k: int| 0 <= k < i ==> (#[trigger] self.students@[k]).class_id@ != id@,
            decreases self.students.len() - i,
        {
            if same_text(self.students[i].class_id.as_str(), id) {
                return true;
            }
            i = i + 1;
        }
        false
    }
}


/// The class that creating one with `id`, `now` and `req` adds.
pub open spec fn new_class(id: String, now: i64, req: CreateClassRequest) -> Class {
    Class { id: id, name: req.name, description: req.description, student_count: 0, created_at: now }
}

/// A class with the fields that `req` supplies written over its own.
pub open spec fn class_patched(c: Class, req: UpdateClassRequest) -> Class {
    Class {
        name: match req.name {
            Some(n) => n,
            None => c.name,
        },
        description: match req.description {
            Some(d) => Some(d),
            None => c.description,
        },
        ..c
    }
}

/// A student after its class `cid` has been renamed to `name`, if a name is
/// given.
pub open spec fn student_renamed(s: Student, cid: Seq<char>, name: Option<String>) -> Student {
    if s.class_id@ == cid && name is Some {
        Student { class_name: name->0, ..s }
    } else {
        s
    }
}

/// Whether a class update request supplies no field.
pub open spec fn class_request_empty(req: UpdateClassRequest) -> bool {
    req.name is None && req.description is None
}

pub proof fn lemma_count_zero(s: Seq<Student>, cid: Seq<char>)
    requires
        !referenced_by_student(s, cid),
    ensures
        count_in(s, cid) == 0,
    decreases s.len(),
{
    if s.len() > 0 {
        let n = s.len() - 1;
        assert(s == s.drop_last().push(s[n]));
        assert(!referenced_by_student(s.drop_last(), cid)) by {
            if referenced_by_student(s.drop_last(), cid) {
                let k = choose|k: int| 0 <= k < s.drop_last().len() && (#[trigger] s.drop_last()[k]).class_id@ == cid;
                assert(s[k] == s.drop_last()[k]);
            }
        }
        lemma_count_zero(s.drop_last(), cid);
        lemma_count_push(s.drop_last(), s[n], cid);
    } else {
        assert(s.filter(in_class(cid)).len() == 0);
    }
}

/// Keeping the students that `p` accepts keeps ids unique, and keeps only
/// students of the given sequence.
pub proof fn lemma_filter_students(s: Seq<Student>, p: spec_fn(Student) -> bool)
    requires
        student_ids_unique(s),
    ensures
        student_ids_unique(s.filter(p)),
        forall|i: int| 0 <= i < s.filter(p).len() ==> s.contains(#[trigger] s.filter(p)[i]),
    decreases s.len(),
{
    if s.len() > 0 {
        let n = s.len() - 1;
        let d = s.drop_last();
        assert(s == d.push(s[n]));
        lemma_filter_students(d, p);
        d.lemma_filter_push(s[n], p);
        let fd = d.filter(p);
        assert forall|i: int| 0 <= i < fd.len() implies (#[trigger] fd[i]).id@ != s[n].id@ by {
            assert(d.contains(fd[i]));
            let k = choose|k: int| 0 <= k < d.len() && d[k] == fd[i];
            assert(s[k] == d[k]);
        }
        assert forall|i: int| 0 <= i < s.filter(p).len() implies s.contains(#[trigger] s.filter(p)[i]) by {
            if i < fd.len() {
                assert(d.contains(fd[i]));
                let k = choose|k: int| 0 <= k < d.len() && d[k] == fd[i];
                assert(s[k] == d[k]);
            } else {
                assert(s[n] == s.filter(p)[i]);
            }
        }
    } else {
        assert(s.filter(p).len() == 0);
    }
}

impl Database {
    /// All classes, newest first.
    pub fn get_all_classes(&self) -> (r: Vec<Class>)
        ensures
            classes_newest_first(r@),
            r@.to_multiset() == self@.classes.to_multiset(),
    {
        sort_classes(&self.classes)
    }

    /// Adds a class under the id `id`, created at `now`, with no students.
    pub fn create_class_with(&mut self, id: String, now: i64, req: CreateClassRequest) -> (r: Result<
        Class,
        StoreError,
    >)
        requires
            old(self).wf(),
        ensures
            final(self).wf(),
            has_class(old(self)@.classes, id@) || referenced_by_student(old(self)@.students, id@) ==> {
                &&& r == Err::<Class, StoreError>(StoreError::AlreadyExists)
                &&& final(self)@ == old(self)@
            },
            !has_class(old(self)@.classes, id@) && !referenced_by_student(old(self)@.students, id@) ==> {
                &&& r == Ok::<Class, StoreError>(new_class(id, now, req))
                &&& final(self)@ == (StoreView { classes: old(self)@.classes.push(new_class(id, now, req)), ..old(self)@ })
            },
    {
        if self.find_class(id.as_str()).is_some() || self.is_class_referenced(id.as_str()) {
            return Err(StoreError::AlreadyExists);
        }
        let ghost before = self@;
        let c = Class { id: id, name: req.name, description: req.description, student_count: 0, created_at: now };
        self.classes.push(c.copy());
        proof {
            lemma_count_zero(before.students, c.id@);
            assert(forall|k: int| 0 <= k < before.classes.len() ==> (#[trigger] before.classes[k]).id@ != c.id@);
        }
        Ok(c)
    }

    /// Adds a class under a fresh random id, created now, with no students.
    pub fn create_class(&mut self, req: CreateClassRequest) -> (r: Result<Class, StoreError>)
        requires
            old(self).wf(),
        ensures
            final(self).wf(),
            match r {
                Ok(c) => {
                    &&& c.name == req.name
                    &&& c.description == req.description
                    &&& c.student_count == 0
                    &&& final(self)@ == (StoreView { classes: old(self)@.classes.push(c), ..old(self)@ })
                },
                Err(e) => e == StoreError::AlreadyExists && final(self)@ == old(self)@,
            },
            r is Err ==> exists|id: Seq<char>|
                id.len() == 36 && (has_class(old(self)@.classes, id) || referenced_by_student(old(self)@.students, id)),
    {
        let id = new_id();
        let now = now_micros();
        let ghost g = id@;
        let r = self.create_class_with(id, now, req);
        proof {
            if r is Err {
                assert(g.len() == 36 && (has_class(old(self)@.classes, g) || referenced_by_student(old(self)@.students, g)));
            }
        }
        r
    }

    /// Writes the fields that `req` supplies into the class `id`; a new name
    /// is copied to every student of the class.
    pub fn update_class(&mut self, id: &str, req: UpdateClassRequest) -> (r: Result<Class, StoreError>)
        requires
            old(self).wf(),
        ensures
            final(self).wf(),
            class_request_empty(req) ==> r == Err::<Class, StoreError>(StoreError::InvalidArgument),
            !class_request_empty(req) && !has_class(old(self)@.classes, id@) ==> r == Err::<Class, StoreError>(
                StoreError::NotFound,
            ),
            r is Err ==> final(self)@ == old(self)@,
            !class_request_empty(req) && has_class(old(self)@.classes, id@) ==> {
                let i = class_pos(old(self)@.classes, id@);
                let c = class_patched(old(self)@.classes[i], req);
                &&& r == Ok::<Class, StoreError>(c)
                &&& final(self)@.classes == old(self)@.classes.update(i, c)
                &&& final(self)@.students == old(self)@.students.map_values(
                    |s: Student| student_renamed(s, id@, req.name),
                )
                &&& final(self)@.products == old(self)@.products
                &&& final(self)@.records == old(self)@.records
            },
    {
        if req.name.is_none() && req.description.is_none() {
            return Err(StoreError::InvalidArgument);
        }
        let pos = match self.find_class(id) {
            Some(i) => i,
            None => return Err(StoreError::NotFound),
        };
        let ghost before = self@;
        let ghost i0 = class_pos(before.classes, id@);
        proof {
            assert(i0 == pos);
        }
        let mut c = self.classes[pos].copy();
        match &req.name {
            Some(n) => {
                c.name = n.clone();
            },
            None => {},
        }
        match &req.description {
            Some(d) => {
                c.description = Some(d.clone());
            },
            None => {},
        }
        self.classes.set(pos, c.copy());
        match &req.name {
            Some(n) => {
                let mut k: usize = 0;
                while k < self.students.len()
                    invariant
                        self.classes@ == before.classes.update(pos as int, c),
                        self.products@ == before.products,
                        self.records@ == before.records,
                        self.students@.len() == before.students.len(),
                        k <= self.students@.len(),
                        req.name == Some(*n),
                        forall|t: int| 0 <= t < k ==> #[trigger] self.students@[t] == student_renamed(before.students[t], id@, req.name),
                        forall|t: int| k <= t < self.students@.len() ==> #[trigger] self.students@[t] == before.students[t],
                    decreases self.students.len() - k,
                {
                    if same_text(self.students[k].class_id.as_str(), id) {
                        let mut s = self.students[k].copy();
                        s.class_name = n.clone();
                        self.students.set(k, s);
                    }
                    k = k + 1;
                }
            },
            None => {},
        }
        proof {
            let st = self@.students;
            assert(st =~= before.students.map_values(|s: Student| student_renamed(s, id@, req.name)));
            assert forall|a: int, b: int| 0 <= a < b < st.len() implies (#[trigger] st[a]).id@ != (#[trigger] st[b]).id@ by {
                assert(before.students[a].id@ != before.students[b].id@);
            }
            assert forall|t: int| 0 <= t < self@.classes.len() implies (#[trigger] self@.classes[t]).student_count == count_in(
                st,
                self@.classes[t].id@,
            ) by {
                lemma_count_same_classes(before.students, st, self@.classes[t].id@);
            }
            assert forall|a: int, b: int| 0 <= a < b < self@.classes.len() implies (#[trigger] self@.classes[a]).id@
                != (#[trigger] self@.classes[b]).id@ by {
                assert(before.classes[a].id@ != before.classes[b].id@);
            }
        }
        Ok(c)
    }

    /// Deletes the class `id` together with every student that references it.
    pub fn delete_class(&mut self, id: &str)
        requires
            old(self).wf(),
        ensures
            final(self).wf(),
            has_class(old(self)@.classes, id@) ==> final(self)@.classes == old(self)@.classes.remove(
                class_pos(old(self)@.classes, id@),
            ),
            !has_class(old(self)@.classes, id@) ==> final(self)@.classes == old(self)@.classes,
            final(self)@.students == old(self)@.students.filter(outside_class(id@)),
            final(self)@.products == old(self)@.products,
            final(self)@.records == old(self)@.records,
    {
        let ghost before = self@;
        let mut kept: Vec<Student> = Vec::new();
        let mut k: usize = 0;
        while k < self.students.len()
            invariant
                self@ == before,
                k <= self.students@.len(),
                kept@ == before.students.take(k as int).filter(outside_class(id@)),
            decreases self.students.len() - k,
        {
            proof {
                assert(before.students.take(k + 1) == before.students.take(k as int).push(before.students[k as int]));
                before.students.take(k as int).lemma_filter_push(before.students[k as int], outside_class(id@));
            }
            if !same_text(self.students[k].class_id.as_str(), id) {
                kept.push(self.students[k].copy());
            }
            k = k + 1;
        }
        proof {
            assert(before.students.take(before.students.len() as int) == before.students);
        }
        self.students = kept;
        match self.find_class(id) {
            Some(pos) => {
                proof {
                    assert(class_pos(before.classes, id@) == pos);
                }
                self.classes.remove(pos);
            },
            None => {},
        }
        proof {
            lemma_filter_students(before.students, outside_class(id@));
            let cs = self@.classes;
            assert forall|a: int, b: int| 0 <= a < b < cs.len() implies (#[trigger] cs[a]).id@ != (#[trigger] cs[b]).id@ by {
                if has_class(before.classes, id@) {
                    let p = class_pos(before.classes, id@);
                    let a0 = if a < p { a } else { a + 1 };
                    let b0 = if b < p { b } else { b + 1 };
                    assert(cs[a] == before.classes[a0]);
                    assert(cs[b] == before.classes[b0]);
                }
            }
            assert forall|t: int| 0 <= t < cs.len() implies (#[trigger] cs[t]).student_count == count_in(
                self@.students,
                cs[t].id@,
            ) by {
                let t0 = if has_class(before.classes, id@) && t >= class_pos(before.classes, id@) { t + 1 } else { t };
                assert(cs[t] == before.classes[t0]);
                lemma_count_without_class(before.students, id@, cs[t].id@);
            }
        }
    }
}


/// The student that creating one with `id`, `now` and `req` adds to the
/// class named `class_name`.
pub open spec fn new_student(id: String, now: i64, req: CreateStudentRequest, class_name: String) -> Student {
    Student {
        id: id,
        name: req.name,
        student_number: req.student_number,
        points: req.points,
        class_id: req.class_id,
        class_name: class_name,
        created_at: now,
    }
}

/// Whether `req` moves the student `cur` to another class.
pub open spec fn moves_class(cur: Student, req: UpdateStudentRequest) -> bool {
    req.class_id is Some && req.class_id->0@ != cur.class_id@
}

/// Whether `req` changes nothing of the student `cur`.
pub open spec fn student_request_empty(cur: Student, req: UpdateStudentRequest) -> bool {
    req.name is None && req.student_number is None && req.points is None && !moves_class(cur, req)
}

/// The student `cur` with the fields that `req` supplies written over its
/// own; on a move its class name is that of the new class in `classes`.
pub open spec fn student_patched(cur: Student, req: UpdateStudentRequest, classes: Seq<Class>) -> Student {
    Student {
        name: match req.name {
            Some(n) => n,
            None => cur.name,
        },
        student_number: match req.student_number {
            Some(n) => n,
            None => cur.student_number,
        },
        points: match req.points {
            Some(p) => p,
            None => cur.points,
        },
        class_id: if moves_class(cur, req) { req.class_id->0 } else { cur.class_id },
        class_name: if moves_class(cur, req) {
            classes[class_pos(classes, req.class_id->0@)].name
        } else {
            cur.class_name
        },
        ..cur
    }
}

impl Database {
    /// The number of students that reference the class `cid`.
    fn count_students(&self, cid: &str) -> (r: usize)
        ensures
            r == count_in(self@.students, cid@),
    {
        let mut n: usize = 0;
        let mut k: usize = 0;
        while k < self.students.len()
            invariant
                k <= self.students@.len(),
                n == count_in(self@.students.take(k as int), cid@),
                n <= k,
            decreases self.students.len() - k,
        {
            proof {
                assert(self@.students.take(k + 1) == self@.students.take(k as int).push(self@.students[k as int]));
                lemma_count_push(self@.students.take(k as int), self@.students[k as int], cid@);
            }
            if same_text(self.students[k].class_id.as_str(), cid) {
                n = n + 1;
            }
            k = k + 1;
        }
        proof {
            assert(self@.students.take(self@.students.len() as int) == self@.students);
        }
        n
    }

    /// Stores in the class at `pos` the live number of its students.
    fn recount_class(&mut self, pos: usize)
        requires
            pos < old(self)@.classes.len(),
        ensures
            final(self)@ == (StoreView {
                classes: old(self)@.classes.update(
                    pos as int,
                    Class {
                        student_count: count_in(old(self)@.students, old(self)@.classes[pos as int].id@) as usize,
                        ..old(self)@.classes[pos as int]
                    },
                ),
                ..old(self)@
            }),
    {
        let n = self.count_students(self.classes[pos].id.as_str());
        let mut c = self.classes[pos].copy();
        c.student_count = n;
        self.classes.set(pos, c);
    }

    /// All students in ascending order of student number, read as an
    /// integer from its leading digits.
    pub fn get_all_students(&self) -> (r: Vec<Student>)
        ensures
            students_ordered(r@),
            r@.to_multiset() == self@.students.to_multiset(),
    {
        sort_students(&self.students)
    }

    /// The students of the class `class_id`, in ascending order of student
    /// number.
    pub fn get_students_by_class(&self, class_id: &str) -> (r: Vec<Student>)
        ensures
            students_ordered(r@),
            r@.to_multiset() == self@.students.filter(in_class(class_id@)).to_multiset(),
    {
        let mut picked: Vec<Student> = Vec::new();
        let mut k: usize = 0;
        while k < self.students.len()
            invariant
                k <= self.students@.len(),
                picked@ == self@.students.take(k as int).filter(in_class(class_id@)),
            decreases self.students.len() - k,
        {
            proof {
                assert(self@.students.take(k + 1) == self@.students.take(k as int).push(self@.students[k as int]));
                self@.students.take(k as int).lemma_filter_push(self@.students[k as int], in_class(class_id@));
            }
            if same_text(self.students[k].class_id.as_str(), class_id) {
                picked.push(self.students[k].copy());
            }
            k = k + 1;
        }
        proof {
            assert(self@.students.take(self@.students.len() as int) == self@.students);
        }
        sort_students(&picked)
    }

    /// Adds a student under the id `id`, created at `now`, to the class that
    /// `req` names, and recounts that class.
    pub fn create_student_with(&mut self, id: String, now: i64, req: CreateStudentRequest) -> (r: Result<
        Student,
        StoreError,
    >)
        requires
            old(self).wf(),
        ensures
            final(self).wf(),
            !has_class(old(self)@.classes, req.class_id@) ==> r == Err::<Student, StoreError>(StoreError::NotFound),
            has_class(old(self)@.classes, req.class_id@) && has_student(old(self)@.students, id@) ==> r == Err::<
                Student,
                StoreError,
            >(StoreError::AlreadyExists),
            r is Err ==> final(self)@ == old(self)@,
            has_class(old(self)@.classes, req.class_id@) && !has_student(old(self)@.students, id@) ==> {
                let ci = class_pos(old(self)@.classes, req.class_id@);
                let c = old(self)@.classes[ci];
                let s = new_student(id, now, req, c.name);
                &&& r == Ok::<Student, StoreError>(s)
                &&& final(self)@.students == old(self)@.students.push(s)
                &&& final(self)@.classes == old(self)@.classes.update(
                    ci,
                    Class { student_count: (c.student_count + 1) as usize, ..c },
                )
                &&& final(self)@.products == old(self)@.products
                &&& final(self)@.records == old(self)@.records
            },
    {
        let ci = match self.find_class(req.class_id.as_str()) {
            Some(i) => i,
            None => return Err(StoreError::NotFound),
        };
        if self.find_student(id.as_str()).is_some() {
            return Err(StoreError::AlreadyExists);
        }
        let ghost before = self@;
        proof {
            assert(class_pos(before.classes, req.class_id@) == ci);
        }
        let class_name = self.classes[ci].name.clone();
        let s = Student {
            id: id,
            name: req.name,
            student_number: req.student_number,
            points: req.points,
            class_id: req.class_id,
            class_name: class_name,
            created_at: now,
        };
        self.students.push(s.copy());
        let total = self.students.len();
        self.recount_class(ci);
        proof {
            let st = self@.students;
            assert(st.len() == total);
            lemma_count_push(before.students, s, s.class_id@);
            assert forall|a: int, b: int| 0 <= a < b < st.len() implies (#[trigger] st[a]).id@ != (#[trigger] st[b]).id@ by {
                if b < before.students.len() {
                    assert(before.students[a].id@ != before.students[b].id@);
                } else {
                    assert(before.students[a].id@ != s.id@);
                }
            }
            assert forall|t: int| 0 <= t < self@.classes.len() implies (#[trigger] self@.classes[t]).student_count == count_in(
                st,
                self@.classes[t].id@,
            ) by {
                lemma_count_push(before.students, s, self@.classes[t].id@);
                if t != ci {
                    assert(before.classes[t].id@ != before.classes[ci as int].id@);
                    assert(self@.classes[t] == before.classes[t]);
                } else {
                    assert(count_in(st, self@.classes[t].id@) <= st.len());
                }
            }
            assert forall|a: int, b: int| 0 <= a < b < self@.classes.len() implies (#[trigger] self@.classes[a]).id@
                != (#[trigger] self@.classes[b]).id@ by {
                assert(before.classes[a].id@ != before.classes[b].id@);
            }
        }
        Ok(s)
    }

    /// Adds a student under a fresh random id, created now, to the class that
    /// `req` names, and recounts that class.
    pub fn create_student(&mut self, req: CreateStudentRequest) -> (r: Result<Student, StoreError>)
        requires
            old(self).wf(),
        ensures
            final(self).wf(),
            !has_class(old(self)@.classes, req.class_id@) ==> r == Err::<Student, StoreError>(StoreError::NotFound),
            match r {
                Ok(s) => {
                    let ci = class_pos(old(self)@.classes, req.class_id@);
                    let c = old(self)@.classes[ci];
                    &&& has_class(old(self)@.classes, req.class_id@)
                    &&& s == new_student(s.id, s.created_at, req, c.name)
                    &&& final(self)@.students == old(self)@.students.push(s)
                    &&& final(self)@.classes == old(self)@.classes.update(
                        ci,
                        Class { student_count: (c.student_count + 1) as usize, ..c },
                    )
                    &&& final(self)@.products == old(self)@.products
                    &&& final(self)@.records == old(self)@.records
                },
                Err(e) => (e == StoreError::NotFound || e == StoreError::AlreadyExists) && final(self)@ == old(self)@,
            },
            has_class(old(self)@.classes, req.class_id@) && r is Err ==> exists|id: Seq<char>|
                id.len() == 36 && has_student(old(self)@.students, id),
    {
        let id = new_id();
        let now = now_micros();
        let ghost g = id@;
        let r = self.create_student_with(id, now, req);
        proof {
            if r is Err && has_class(old(self)@.classes, req.class_id@) {
                assert(g.len() == 36 && has_student(old(self)@.students, g));
            }
        }
        r
    }
}


/// The student with id `id`.
pub open spec fn student_of(s: Seq<Student>, id: Seq<char>) -> Student {
    s[student_pos(s, id)]
}

/// When the students `after` count the same as `before` for every class but
/// `a` and `b`, and `classes` had live counts over `before`, then classes
/// `fixed` that recount just `a` and `b` over `after` are `classes` recounted
/// over `after`, with live counts.
pub proof fn lemma_recounted_frame(
    classes: Seq<Class>,
    fixed: Seq<Class>,
    before: Seq<Student>,
    after: Seq<Student>,
    a: Seq<char>,
    b: Seq<char>,
)
    requires
        counts_live(classes, before),
        after.len() <= usize::MAX,
        fixed.len() == classes.len(),
        forall|t: int| 0 <= t < classes.len() && classes[t].id@ != a && classes[t].id@ != b
            ==> #[trigger] fixed[t] == classes[t],
        forall|t: int| 0 <= t < classes.len() && (classes[t].id@ == a || classes[t].id@ == b)
            ==> #[trigger] fixed[t] == (Class { student_count: count_in(after, classes[t].id@) as usize, ..classes[t] }),
        forall|c: Seq<char>| c != a && c != b ==> #[trigger] count_in(after, c) == count_in(before, c),
    ensures
        fixed == recounted(classes, after),
        counts_live(fixed, after),
{
    assert forall|t: int| 0 <= t < classes.len() implies #[trigger] fixed[t] == recounted(classes, after)[t] by {
        if classes[t].id@ != a && classes[t].id@ != b {
            assert(count_in(after, classes[t].id@) == count_in(before, classes[t].id@));
        }
    }
    assert(fixed =~= recounted(classes, after));
    assert forall|t: int| 0 <= t < fixed.len() implies (#[trigger] fixed[t]).student_count == count_in(after, fixed[t].id@) by {
        assert(count_in(after, classes[t].id@) <= after.len());
    }
}

impl Database {
    /// Writes the fields that `req` supplies into the student `id`. A move to
    /// another class copies that class's name and recounts both classes.
    pub fn update_student(&mut self, id: &str, req: UpdateStudentRequest) -> (r: Result<Student, StoreError>)
        requires
            old(self).wf(),
        ensures
            final(self).wf(),
            !has_student(old(self)@.students, id@) ==> r == Err::<Student, StoreError>(StoreError::NotFound),
            has_student(old(self)@.students, id@) ==> {
                let cur = student_of(old(self)@.students, id@);
                let j = student_pos(old(self)@.students, id@);
                let s = student_patched(cur, req, old(self)@.classes);
                let a = cur.class_id@;
                let b = req.class_id->0@;
                &&& moves_class(cur, req) && !has_class(old(self)@.classes, b) ==> r == Err::<Student, StoreError>(
                    StoreError::NotFound,
                )
                &&& student_request_empty(cur, req) ==> r == Ok::<Student, StoreError>(cur) && final(self)@ == old(self)@
                &&& (moves_class(cur, req) ==> has_class(old(self)@.classes, b)) ==> {
                    &&& r == Ok::<Student, StoreError>(s)
                    &&& final(self)@.students == old(self)@.students.update(j, s)
                    &&& final(self)@.classes == recounted(old(self)@.classes, final(self)@.students)
                    &&& final(self)@.products == old(self)@.products
                    &&& final(self)@.records == old(self)@.records
                }
                &&& moves_class(cur, req) && has_class(old(self)@.classes, b) ==> {
                    let ib = class_pos(old(self)@.classes, b);
                    let ia = class_pos(old(self)@.classes, a);
                    &&& final(self)@.classes[ib].student_count == old(self)@.classes[ib].student_count + 1
                    &&& has_class(old(self)@.classes, a) ==> final(self)@.classes[ia].student_count
                        == old(self)@.classes[ia].student_count - 1
                }
            },
            r is Err ==> final(self)@ == old(self)@,
    {
        let j = match self.find_student(id) {
            Some(j) => j,
            None => return Err(StoreError::NotFound),
        };
        let ghost before = self@;
        proof {
            assert(student_pos(before.students, id@) == j);
        }
        let cur = self.students[j].copy();
        let mut moving = false;
        let mut new_ci: usize = 0;
        match &req.class_id {
            Some(cid) => {
                if !same_text(cid.as_str(), cur.class_id.as_str()) {
                    match self.find_class(cid.as_str()) {
                        Some(ci) => {
                            moving = true;
                            new_ci = ci;
                        },
                        None => return Err(StoreError::NotFound),
                    }
                }
            },
            None => {},
        }
        if req.name.is_none() && req.student_number.is_none() && req.points.is_none() && !moving {
            return Ok(cur);
        }
        let mut s = cur.copy();
        match &req.name {
            Some(n) => {
                s.name = n.clone();
            },
            None => {},
        }
        match &req.student_number {
            Some(n) => {
                s.student_number = n.clone();
            },
            None => {},
        }
        match req.points {
            Some(p) => {
                s.points = p;
            },
            None => {},
        }
        if moving {
            match &req.class_id {
                Some(cid) => {
                    s.class_id = cid.clone();
                },
                None => {},
            }
            s.class_name = self.classes[new_ci].name.clone();
            proof {
                assert(class_pos(before.classes, req.class_id->0@) == new_ci);
            }
        }
        self.students.set(j, s.copy());
        let total = self.students.len();
        let ghost after = self@.students;
        proof {
            assert(after.len() == total);
            assert(s == student_patched(cur, req, before.classes));
            assert forall|c: Seq<char>| c != cur.class_id@ && c != s.class_id@ implies #[trigger] count_in(after, c)
                == count_in(before.students, c) by {
                lemma_count_update(before.students, j as int, s, c);
            }
            assert forall|a: int, b: int| 0 <= a < b < after.len() implies (#[trigger] after[a]).id@ != (#[trigger] after[b]).id@ by {
                assert(before.students[a].id@ != before.students[b].id@);
            }
            lemma_count_update(before.students, j as int, s, cur.class_id@);
            lemma_count_update(before.students, j as int, s, s.class_id@);
        }
        let mut old_ci: Option<usize> = None;
        if moving {
            self.recount_class(new_ci);
            old_ci = self.find_class(cur.class_id.as_str());
            match old_ci {
                Some(oi) => {
                    self.recount_class(oi);
                },
                None => {},
            }
        }
        proof {
            let cs = before.classes;
            assert forall|t: int| 0 <= t < cs.len() && cs[t].id@ != cur.class_id@ && cs[t].id@ != s.class_id@
                implies #[trigger] self@.classes[t] == cs[t] by {
                if moving {
                    assert(cs[t].id@ != cs[new_ci as int].id@);
                    if let Some(oi) = old_ci {
                        assert(self@.classes[oi as int].id@ == cur.class_id@);
                    }
                }
            }
            assert forall|t: int| 0 <= t < cs.len() && (cs[t].id@ == cur.class_id@ || cs[t].id@ == s.class_id@)
                implies #[trigger] self@.classes[t] == (Class { student_count: count_in(after, cs[t].id@) as usize, ..cs[t] }) by {
                assert(count_in(after, cs[t].id@) <= after.len());
                if moving {
                    if cs[t].id@ == s.class_id@ {
                        assert(t == new_ci);
                        if let Some(oi) = old_ci {
                            assert(self@.classes[oi as int].id@ == cur.class_id@);
                        }
                    } else {
                        assert(old_ci is Some);
                        assert(t == old_ci->0);
                    }
                } else {
                    assert(cs[t].student_count == count_in(before.students, cs[t].id@));
                }
            }
            lemma_recounted_frame(cs, self@.classes, before.students, after, cur.class_id@, s.class_id@);
            assert forall|a: int, b: int| 0 <= a < b < self@.classes.len() implies (#[trigger] self@.classes[a]).id@
                != (#[trigger] self@.classes[b]).id@ by {
                assert(cs[a].id@ != cs[b].id@);
            }
            if moving {
                assert(self@.classes[new_ci as int].student_count == count_in(after, s.class_id@));
                if has_class(cs, cur.class_id@) {
                    assert(old_ci is Some);
                    assert(class_pos(cs, cur.class_id@) == old_ci->0);
                }
            }
        }
        Ok(s)
    }

    /// Deletes the student `id` and recounts its class.
    pub fn delete_student(&mut self, id: &str) -> (r: Result<(), StoreError>)
        requires
            old(self).wf(),
        ensures
            final(self).wf(),
            !has_student(old(self)@.students, id@) ==> r == Err::<(), StoreError>(StoreError::NotFound) && final(self)@
                == old(self)@,
            has_student(old(self)@.students, id@) ==> {
                let a = student_of(old(self)@.students, id@).class_id@;
                let ia = class_pos(old(self)@.classes, a);
                &&& r == Ok::<(), StoreError>(())
                &&& final(self)@.students == old(self)@.students.remove(student_pos(old(self)@.students, id@))
                &&& final(self)@.classes == recounted(old(self)@.classes, final(self)@.students)
                &&& final(self)@.products == old(self)@.products
                &&& final(self)@.records == old(self)@.records
                &&& has_class(old(self)@.classes, a) ==> final(self)@.classes[ia].student_count
                    == old(self)@.classes[ia].student_count - 1
            },
    {
        let j = match self.find_student(id) {
            Some(j) => j,
            None => return Err(StoreError::NotFound),
        };
        let ghost before = self@;
        proof {
            assert(student_pos(before.students, id@) == j);
        }
        let cur = self.students.remove(j);
        let total = self.students.len();
        let ghost after = self@.students;
        proof {
            assert(after.len() == total);
            assert forall|c: Seq<char>| c != cur.class_id@ implies #[trigger] count_in(after, c) == count_in(before.students, c) by {
                lemma_count_remove(before.students, j as int, c);
            }
            lemma_count_remove(before.students, j as int, cur.class_id@);
            assert forall|a: int, b: int| 0 <= a < b < after.len() implies (#[trigger] after[a]).id@ != (#[trigger] after[b]).id@ by {
                let a0 = if a < j { a } else { a + 1 };
                let b0 = if b < j { b } else { b + 1 };
                assert(after[a] == before.students[a0]);
                assert(after[b] == before.students[b0]);
            }
        }
        let old_ci = self.find_class(cur.class_id.as_str());
        match old_ci {
            Some(oi) => {
                self.recount_class(oi);
            },
            None => {},
        }
        proof {
            let cs = before.classes;
            assert forall|t: int| 0 <= t < cs.len() && cs[t].id@ != cur.class_id@ && cs[t].id@ != cur.class_id@
                implies #[trigger] self@.classes[t] == cs[t] by {
                if let Some(oi) = old_ci {
                    assert(self@.classes[oi as int].id@ == cur.class_id@);
                }
            }
            assert forall|t: int| 0 <= t < cs.len() && (cs[t].id@ == cur.class_id@ || cs[t].id@ == cur.class_id@)
                implies #[trigger] self@.classes[t] == (Class { student_count: count_in(after, cs[t].id@) as usize, ..cs[t] }) by {
                assert(old_ci is Some);
                assert(t == old_ci->0);
            }
            lemma_recounted_frame(cs, self@.classes, before.students, after, cur.class_id@, cur.class_id@);
            assert forall|a: int, b: int| 0 <= a < b < self@.classes.len() implies (#[trigger] self@.classes[a]).id@
                != (#[trigger] self@.classes[b]).id@ by {
                assert(cs[a].id@ != cs[b].id@);
            }
            if has_class(cs, cur.class_id@) {
                assert(class_pos(cs, cur.class_id@) == old_ci->0);
            }
        }
        Ok(())
    }
}


/// The product that creating one with `id`, `now` and `req` adds.
pub open spec fn new_product(id: String, now: i64, req: CreateProductRequest) -> Product {
    Product { id: id, name: req.name, points: req.points, stock: req.stock, class_id: req.class_id, created_at: now }
}

pub open spec fn product_request_empty(req: UpdateProductRequest) -> bool {
    req.name is None && req.points is None && req.stock is None
}

/// A product with the fields that `req` supplies written over its own.
pub open spec fn product_patched(p: Product, req: UpdateProductRequest) -> Product {
    Product {
        name: match req.name {
            Some(n) => n,
            None => p.name,
        },
        points: match req.points {
            Some(v) => v,
            None => p.points,
        },
        stock: match req.stock {
            Some(v) => v,
            None => p.stock,
        },
        ..p
    }
}

/// The record of the student `s` buying `quantity` units of the product `p`.
pub open spec fn new_record(
    id: String,
    now: i64,
    p: Product,
    s: Student,
    quantity: i32,
    status: String,
) -> PurchaseRecord {
    PurchaseRecord {
        id: id,
        product_id: p.id,
        product_name: p.name,
        points: p.points,
        student_id: s.id,
        student_name: s.name,
        quantity: quantity,
        class_id: p.class_id,
        created_at: now,
        shipping_status: status,
    }
}

/// The shipping status of a new purchase record.
pub fn pending_status() -> (r: String)
    ensures
        r@ == "pending"@,
{
    String::from_str("pending")
}

/// `s[lo..hi]` with both ends cut to the length of `s`.
pub open spec fn page_of<A>(s: Seq<A>, offset: nat, limit: nat) -> Seq<A> {
    let lo = if offset < s.len() { offset } else { s.len() };
    let hi = if offset + limit < s.len() { offset + limit } else { s.len() };
    s.subrange(lo as int, hi as int)
}


impl Database {
    /// The products of the class `class_id`, in the order they were added.
    pub fn get_products_by_class(&self, class_id: &str) -> (r: Vec<Product>)
        ensures
            r@ == self@.products.filter(product_in_class(class_id@)),
    {
        let mut picked: Vec<Product> = Vec::new();
        let mut k: usize = 0;
        while k < self.products.len()
            invariant
                k <= self.products@.len(),
                picked@ == self@.products.take(k as int).filter(product_in_class(class_id@)),
            decreases self.products.len() - k,
        {
            proof {
                assert(self@.products.take(k + 1) == self@.products.take(k as int).push(self@.products[k as int]));
                self@.products.take(k as int).lemma_filter_push(self@.products[k as int], product_in_class(class_id@));
            }
            if same_text(self.products[k].class_id.as_str(), class_id) {
                picked.push(self.products[k].copy());
            }
            k = k + 1;
        }
        proof {
            assert(self@.products.take(self@.products.len() as int) == self@.products);
        }
        picked
    }

    /// Adds a product under the id `id`, created at `now`. The class id is
    /// taken as given.
    pub fn create_product_with(&mut self, id: String, now: i64, req: CreateProductRequest) -> (r: Result<
        Product,
        StoreError,
    >)
        requires
            old(self).wf(),
        ensures
            final(self).wf(),
            has_product(old(self)@.products, id@) ==> r == Err::<Product, StoreError>(StoreError::AlreadyExists)
                && final(self)@ == old(self)@,
            !has_product(old(self)@.products, id@) ==> {
                &&& r == Ok::<Product, StoreError>(new_product(id, now, req))
                &&& final(self)@ == (StoreView { products: old(self)@.products.push(new_product(id, now, req)), ..old(self)@ })
            },
    {
        if self.find_product(id.as_str()).is_some() {
            return Err(StoreError::AlreadyExists);
        }
        let ghost before = self@;
        let p = Product {
            id: id,
            name: req.name,
            points: req.points,
            stock: req.stock,
            class_id: req.class_id,
            created_at: now,
        };
        self.products.push(p.copy());
        proof {
            let ps = self@.products;
            assert forall|a: int, b: int| 0 <= a < b < ps.len() implies (#[trigger] ps[a]).id@ != (#[trigger] ps[b]).id@ by {
                if b < before.products.len() {
                    assert(before.products[a].id@ != before.products[b].id@);
                } else {
                    assert(before.products[a].id@ != p.id@);
                }
            }
        }
        Ok(p)
    }

    /// Adds a product under a fresh random id, created now.
    pub fn create_product(&mut self, req: CreateProductRequest) -> (r: Result<Product, StoreError>)
        requires
            old(self).wf(),
        ensures
            final(self).wf(),
            match r {
                Ok(p) => {
                    &&& p == new_product(p.id, p.created_at, req)
                    &&& final(self)@ == (StoreView { products: old(self)@.products.push(p), ..old(self)@ })
                },
                Err(e) => e == StoreError::AlreadyExists && final(self)@ == old(self)@,
            },
            r is Err ==> exists|id: Seq<char>| id.len() == 36 && has_product(old(self)@.products, id),
    {
        let id = new_id();
        let now = now_micros();
        let ghost g = id@;
        let r = self.create_product_with(id, now, req);
        proof {
            if r is Err {
                assert(g.len() == 36 && has_product(old(self)@.products, g));
            }
        }
        r
    }

    /// Writes the fields that `req` supplies into the product `id`.
    pub fn update_product(&mut self, id: &str, req: UpdateProductRequest) -> (r: Result<Product, StoreError>)
        requires
            old(self).wf(),
        ensures
            final(self).wf(),
            product_request_empty(req) ==> r == Err::<Product, StoreError>(StoreError::InvalidArgument),
            !product_request_empty(req) && !has_product(old(self)@.products, id@) ==> r == Err::<Product, StoreError>(
                StoreError::NotFound,
            ),
            r is Err ==> final(self)@ == old(self)@,
            !product_request_empty(req) && has_product(old(self)@.products, id@) ==> {
                let i = product_pos(old(self)@.products, id@);
                let p = product_patched(old(self)@.products[i], req);
                &&& r == Ok::<Product, StoreError>(p)
                &&& final(self)@ == (StoreView { products: old(self)@.products.update(i, p), ..old(self)@ })
            },
    {
        if req.name.is_none() && req.points.is_none() && req.stock.is_none() {
            return Err(StoreError::InvalidArgument);
        }
        let pos = match self.find_product(id) {
            Some(i) => i,
            None => return Err(StoreError::NotFound),
        };
        let ghost before = self@;
        proof {
            assert(product_pos(before.products, id@) == pos);
        }
        let mut p = self.products[pos].copy();
        match &req.name {
            Some(n) => {
                p.name = n.clone();
            },
            None => {},
        }
        match req.points {
            Some(v) => {
                p.points = v;
            },
            None => {},
        }
        match req.stock {
            Some(v) => {
                p.stock = v;
            },
            None => {},
        }
        self.products.set(pos, p.copy());
        proof {
            let ps = self@.products;
            assert forall|a: int, b: int| 0 <= a < b < ps.len() implies (#[trigger] ps[a]).id@ != (#[trigger] ps[b]).id@ by {
                assert(before.products[a].id@ != before.products[b].id@);
            }
        }
        Ok(p)
    }

    /// Deletes the product `id`.
    pub fn delete_product(&mut self, id: &str) -> (r: Result<(), StoreError>)
        requires
            old(self).wf(),
        ensures
            final(self).wf(),
            !has_product(old(self)@.products, id@) ==> r == Err::<(), StoreError>(StoreError::NotFound) && final(self)@
                == old(self)@,
            has_product(old(self)@.products, id@) ==> {
                &&& r == Ok::<(), StoreError>(())
                &&& final(self)@ == (StoreView {
                    products: old(self)@.products.remove(product_pos(old(self)@.products, id@)),
                    ..old(self)@
                })
            },
    {
        let pos = match self.find_product(id) {
            Some(i) => i,
            None => return Err(StoreError::NotFound),
        };
        let ghost before = self@;
        proof {
            assert(product_pos(before.products, id@) == pos);
        }
        self.products.remove(pos);
        proof {
            let ps = self@.products;
            assert forall|a: int, b: int| 0 <= a < b < ps.len() implies (#[trigger] ps[a]).id@ != (#[trigger] ps[b]).id@ by {
                let a0 = if a < pos { a } else { a + 1 };
                let b0 = if b < pos { b } else { b + 1 };
                assert(ps[a] == before.products[a0]);
                assert(ps[b] == before.products[b0]);
            }
        }
        Ok(())
    }

    /// Records the student `req.student_id` buying `req.quantity` units of
    /// the product `req.product_id`, under the id `id`, at `now`. Neither the
    /// stock nor the student's points change.
    pub fn create_purchase_record_with(&mut self, id: String, now: i64, req: CreatePurchaseRequest) -> (r: Result<
        PurchaseRecord,
        StoreError,
    >)
        requires
            old(self).wf(),
        ensures
            final(self).wf(),
            !has_product(old(self)@.products, req.product_id@) || !has_student(old(self)@.students, req.student_id@)
                ==> r == Err::<PurchaseRecord, StoreError>(StoreError::NotFound),
            has_product(old(self)@.products, req.product_id@) && has_student(old(self)@.students, req.student_id@)
                && has_record(old(self)@.records, id@) ==> r == Err::<PurchaseRecord, StoreError>(StoreError::AlreadyExists),
            r is Err ==> final(self)@ == old(self)@,
            has_product(old(self)@.products, req.product_id@) && has_student(old(self)@.students, req.student_id@)
                && !has_record(old(self)@.records, id@) ==> r is Ok,
            match r {
                Ok(rec) => {
                    let p = old(self)@.products[product_pos(old(self)@.products, req.product_id@)];
                    let s = student_of(old(self)@.students, req.student_id@);
                    &&& rec == new_record(id, now, p, s, req.quantity, rec.shipping_status)
                    &&& rec.shipping_status@ == "pending"@
                    &&& final(self)@ == (StoreView { records: old(self)@.records.push(rec), ..old(self)@ })
                },
                Err(_) => true,
            },
    {
        let pi = match self.find_product(req.product_id.as_str()) {
            Some(i) => i,
            None => return Err(StoreError::NotFound),
        };
        let si = match self.find_student(req.student_id.as_str()) {
            Some(i) => i,
            None => return Err(StoreError::NotFound),
        };
        if self.find_record(id.as_str()).is_some() {
            return Err(StoreError::AlreadyExists);
        }
        let ghost before = self@;
        proof {
            assert(product_pos(before.products, req.product_id@) == pi);
            assert(student_pos(before.students, req.student_id@) == si);
        }
        let rec = PurchaseRecord {
            id: id,
            product_id: self.products[pi].id.clone(),
            product_name: self.products[pi].name.clone(),
            points: self.products[pi].points,
            student_id: self.students[si].id.clone(),
            student_name: self.students[si].name.clone(),
            quantity: req.quantity,
            class_id: self.products[pi].class_id.clone(),
            created_at: now,
            shipping_status: pending_status(),
        };
        self.records.push(rec.copy());
        proof {
            let rs = self@.records;
            assert forall|a: int, b: int| 0 <= a < b < rs.len() implies (#[trigger] rs[a]).id@ != (#[trigger] rs[b]).id@ by {
                if b < before.records.len() {
                    assert(before.records[a].id@ != before.records[b].id@);
                } else {
                    assert(before.records[a].id@ != rec.id@);
                }
            }
        }
        Ok(rec)
    }

    /// Records a purchase under a fresh random id, at the current time.
    pub fn create_purchase_record(&mut self, req: CreatePurchaseRequest) -> (r: Result<PurchaseRecord, StoreError>)
        requires
            old(self).wf(),
        ensures
            final(self).wf(),
            !has_product(old(self)@.products, req.product_id@) || !has_student(old(self)@.students, req.student_id@)
                ==> r == Err::<PurchaseRecord, StoreError>(StoreError::NotFound),
            match r {
                Ok(rec) => {
                    let p = old(self)@.products[product_pos(old(self)@.products, req.product_id@)];
                    let s = student_of(old(self)@.students, req.student_id@);
                    &&& rec == new_record(rec.id, rec.created_at, p, s, req.quantity, rec.shipping_status)
                    &&& rec.shipping_status@ == "pending"@
                    &&& final(self)@ == (StoreView { records: old(self)@.records.push(rec), ..old(self)@ })
                },
                Err(e) => (e == StoreError::NotFound || e == StoreError::AlreadyExists) && final(self)@ == old(self)@,
            },
            has_product(old(self)@.products, req.product_id@) && has_student(old(self)@.students, req.student_id@)
                && r is Err ==> exists|id: Seq<char>| id.len() == 36 && has_record(old(self)@.records, id),
    {
        let id = new_id();
        let now = now_micros();
        let ghost g = id@;
        let r = self.create_purchase_record_with(id, now, req);
        proof {
            if r is Err && has_product(old(self)@.products, req.product_id@) && has_student(
                old(self)@.students,
                req.student_id@,
            ) {
                assert(g.len() == 36 && has_record(old(self)@.records, g));
            }
        }
        r
    }

    /// The purchase records of the class `class_id`, newest first.
    pub fn get_purchase_records_by_class(&self, class_id: &str) -> (r: Vec<PurchaseRecord>)
        ensures
            records_newest_first(r@),
            r@.to_multiset() == self@.records.filter(record_in_class(class_id@)).to_multiset(),
    {
        let mut picked: Vec<PurchaseRecord> = Vec::new();
        let mut k: usize = 0;
        while k < self.records.len()
            invariant
                k <= self.records@.len(),
                picked@ == self@.records.take(k as int).filter(record_in_class(class_id@)),
            decreases self.records.len() - k,
        {
            proof {
                assert(self@.records.take(k + 1) == self@.records.take(k as int).push(self@.records[k as int]));
                self@.records.take(k as int).lemma_filter_push(self@.records[k as int], record_in_class(class_id@));
            }
            if same_text(self.records[k].class_id.as_str(), class_id) {
                picked.push(self.records[k].copy());
            }
            k = k + 1;
        }
        proof {
            assert(self@.records.take(self@.records.len() as int) == self@.records);
        }
        sort_records(&picked)
    }

    /// One page of the purchase records of the class `class_id`, newest
    /// first: at most `limit` records, after skipping `offset`.
    pub fn get_purchase_records_paginated(&self, class_id: &str, offset: usize, limit: usize) -> (r: Vec<
        PurchaseRecord,
    >)
        ensures
            exists|all: Seq<PurchaseRecord>|
                {
                    &&& records_newest_first(all)
                    &&& all.to_multiset() == self@.records.filter(record_in_class(class_id@)).to_multiset()
                    &&& r@ == page_of(all, offset as nat, limit as nat)
                },
    {
        let all = self.get_purchase_records_by_class(class_id);
        let n = all.len();
        let lo: usize = if offset < n { offset } else { n };
        let hi: usize = if limit <= n - lo { lo + limit } else { n };
        let mut page: Vec<PurchaseRecord> = Vec::new();
        let mut k: usize = lo;
        while k < hi
            invariant
                lo <= k <= hi <= all@.len(),
                page@ == all@.subrange(lo as int, k as int),
            decreases hi - k,
        {
            page.push(all[k].copy());
            proof {
                assert(all@.subrange(lo as int, k + 1) == all@.subrange(lo as int, k as int).push(all@[k as int]));
            }
            k = k + 1;
        }
        proof {
            assert(page@ == page_of(all@, offset as nat, limit as nat));
        }
        page
    }

    /// Sets the shipping status of the purchase record `record_id`.
    pub fn update_shipping_status(&mut self, record_id: &str, status: &str) -> (r: Result<(), StoreError>)
        requires
            old(self).wf(),
        ensures
            final(self).wf(),
            !has_record(old(self)@.records, record_id@) ==> r == Err::<(), StoreError>(StoreError::NotFound)
                && final(self)@ == old(self)@,
            has_record(old(self)@.records, record_id@) ==> {
                let i = record_pos(old(self)@.records, record_id@);
                &&& r == Ok::<(), StoreError>(())
                &&& final(self)@.records.len() == old(self)@.records.len()
                &&& final(self)@.records[i].shipping_status@ == status@
                &&& final(self)@.records == old(self)@.records.update(
                    i,
                    PurchaseRecord { shipping_status: final(self)@.records[i].shipping_status, ..old(self)@.records[i] },
                )
                &&& final(self)@.classes == old(self)@.classes
                &&& final(self)@.students == old(self)@.students
                &&& final(self)@.products == old(self)@.products
            },
    {
        let pos = match self.find_record(record_id) {
            Some(i) => i,
            None => return Err(StoreError::NotFound),
        };
        let ghost before = self@;
        proof {
            assert(record_pos(before.records, record_id@) == pos);
        }
        let mut rec = self.records[pos].copy();
        rec.shipping_status = String::from_str(status);
        self.records.set(pos, rec);
        proof {
            let rs = self@.records;
            assert forall|a: int, b: int| 0 <= a < b < rs.len() implies (#[trigger] rs[a]).id@ != (#[trigger] rs[b]).id@ by {
                assert(before.records[a].id@ != before.records[b].id@);
            }
        }
        Ok(())
    }
}


/// The student number given to a stored student that has none: "STU"
/// followed by its id.
pub open spec fn synthesized_number(id: Seq<char>) -> Seq<char> {
    "STU"@ + id
}

/// Whether a stored student lacks a student number.
pub open spec fn lacks_number(row: StoredStudent) -> bool {
    match row.student_number {
        Some(v) => v@.len() == 0,
        None => true,
    }
}

/// The student number of a stored student once loaded: its own, unless it
/// is absent or empty.
pub open spec fn loaded_number(n: Option<String>, id: Seq<char>) -> Seq<char> {
    match n {
        Some(v) => if v@.len() == 0 {
            synthesized_number(id)
        } else {
            v@
        },
        None => synthesized_number(id),
    }
}

/// Whether `s` is the stored student `row` loaded at `now`: a missing
/// number is synthesized from the id and a missing creation time is `now`.
pub open spec fn loaded_student(row: StoredStudent, s: Student, now: i64) -> bool {
    &&& s.id == row.id
    &&& s.name == row.name
    &&& s.points == row.points
    &&& s.class_id == row.class_id
    &&& s.class_name == row.class_name
    &&& s.student_number@ == loaded_number(row.student_number, row.id@)
    &&& s.created_at == match row.created_at {
        Some(t) => t,
        None => now,
    }
}

/// Whether `loaded` is the stored students `rows` loaded at `now`.
pub open spec fn loaded_rows(rows: Seq<StoredStudent>, loaded: Seq<Student>, now: i64) -> bool {
    &&& loaded.len() == rows.len()
    &&& forall|k: int| 0 <= k < rows.len() ==> loaded_student(rows[k], #[trigger] loaded[k], now)
}

/// The store that holds the given rows, with every class count recomputed.
pub open spec fn loaded_view(
    classes: Seq<Class>,
    loaded: Seq<Student>,
    products: Seq<Product>,
    records: Seq<PurchaseRecord>,
) -> StoreView {
    StoreView { classes: recounted(classes, loaded), students: loaded, products: products, records: records }
}

/// Whether `after` is `before` with one sample class `class_id` added and
/// one student `student_id` in it.
pub open spec fn seeded(before: StoreView, after: StoreView, class_id: Seq<char>, student_id: Seq<char>) -> bool {
    let c = after.classes[0];
    let s = after.students.last();
    &&& after.classes.len() == 1
    &&& c.id@ == class_id
    &&& c.student_count == 1
    &&& after.students == before.students.push(s)
    &&& s.id@ == student_id
    &&& s.class_id@ == class_id
    &&& s.class_name == c.name
    &&& s.points == 85
    &&& after.products == before.products
    &&& after.records == before.records
}

pub open spec fn strings_distinct(s: Seq<String>) -> bool {
    forall|a: int, b: int| 0 <= a < b < s.len() ==> (#[trigger] s[a])@ != (#[trigger] s[b])@
}

pub open spec fn stored_ids_unique(s: Seq<StoredStudent>) -> bool {
    forall|a: int, b: int| 0 <= a < b < s.len() ==> (#[trigger] s[a]).id@ != (#[trigger] s[b]).id@
}

/// Whether every table of stored rows has unique ids.
pub open spec fn rows_keyed(
    classes: Seq<Class>,
    students: Seq<StoredStudent>,
    products: Seq<Product>,
    records: Seq<PurchaseRecord>,
) -> bool {
    &&& class_ids_unique(classes)
    &&& stored_ids_unique(students)
    &&& product_ids_unique(products)
    &&& record_ids_unique(records)
}

/// The student number given to a stored student that has none: "STU"
/// followed by its id.
pub fn synthesize_number(id: &str) -> (r: String)
    ensures
        r@ == synthesized_number(id@),
{
    let mut r = String::from_str("STU");
    r.append(id);
    r
}

/// Stored students with different ids get different synthesized student
/// numbers.
pub proof fn lemma_synthesized_injective(a: Seq<char>, b: Seq<char>)
    requires
        a != b,
    ensures
        synthesized_number(a) != synthesized_number(b),
{
    reveal_strlit("STU");
    if synthesized_number(a) == synthesized_number(b) {
        assert(synthesized_number(a).skip(3) =~= a);
        assert(synthesized_number(b).skip(3) =~= b);
    }
}

/// Loads a stored student, filling in a missing number or creation time.
pub fn load_student(row: StoredStudent, now: i64) -> (s: Student)
    ensures
        loaded_student(row, s, now),
{
    let number = match &row.student_number {
        Some(v) => if v.as_str().unicode_len() == 0 {
            synthesize_number(row.id.as_str())
        } else {
            v.clone()
        },
        None => synthesize_number(row.id.as_str()),
    };
    let created_at = match row.created_at {
        Some(t) => t,
        None => now,
    };
    Student {
        id: row.id,
        name: row.name,
        student_number: number,
        points: row.points,
        class_id: row.class_id,
        class_name: row.class_name,
        created_at: created_at,
    }
}

/// Whether no two of the strings are equal.
pub fn all_distinct(ids: &Vec<String>) -> (r: bool)
    ensures
        r == strings_distinct(ids@),
{
    let mut b: usize = 0;
    while b < ids.len()
        invariant
            b <= ids@.len(),
            forall|x: int, y: int| 0 <= x < y < b ==> (#[trigger] ids@[x])@ != (#[trigger] ids@[y])@,
        decreases ids.len() - b,
    {
        let mut a: usize = 0;
        while a < b
            invariant
                a <= b < ids@.len(),
                forall|x: int| 0 <= x < a ==> (#[trigger] ids@[x])@ != ids@[b as int]@,
            decreases b - a,
        {
            if ids[a] == ids[b] {
                return false;
            }
            a = a + 1;
        }
        b = b + 1;
    }
    true
}

impl Database {
    /// A store over rows read from an existing file, as the schema
    /// initializer leaves them: students without a number get one made from
    /// their id, rows without a creation time get `now`, and every class's
    /// student count is recomputed. Fails when a table repeats an id.
    pub fn from_rows(
        classes: Vec<Class>,
        students: Vec<StoredStudent>,
        products: Vec<Product>,
        records: Vec<PurchaseRecord>,
        now: i64,
    ) -> (r: Result<Database, StoreError>)
        ensures
            r is Ok <==> rows_keyed(classes@, students@, products@, records@),
            match r {
                Ok(db) => {
                    &&& db.wf()
                    &&& db@.students.len() == students@.len()
                    &&& forall|k: int| 0 <= k < students@.len() ==> loaded_student(students@[k], #[trigger] db@.students[k], now)
                    &&& forall|a: int, b: int|
                        0 <= a < b < students@.len() && lacks_number(students@[a]) && lacks_number(students@[b])
                            ==> (#[trigger] db@.students[a]).student_number@ != (#[trigger] db@.students[b]).student_number@
                    &&& db@.classes == recounted(classes@, db@.students)
                    &&& db@.products == products@
                    &&& db@.records == records@
                },
                Err(e) => e == StoreError::AlreadyExists,
            },
    {
        let mut class_ids: Vec<String> = Vec::new();
        let mut k: usize = 0;
        while k < classes.len()
            invariant
                k <= classes@.len(),
                class_ids@.len() == k,
                forall|t: int| 0 <= t < k ==> (#[trigger] class_ids@[t])@ == classes@[t].id@,
            decreases classes.len() - k,
        {
            class_ids.push(classes[k].id.clone());
            k = k + 1;
        }
        let mut student_ids: Vec<String> = Vec::new();
        k = 0;
        while k < students.len()
            invariant
                k <= students@.len(),
                student_ids@.len() == k,
                forall|t: int| 0 <= t < k ==> (#[trigger] student_ids@[t])@ == students@[t].id@,
            decreases students.len() - k,
        {
            student_ids.push(students[k].id.clone());
            k = k + 1;
        }
        let mut product_ids: Vec<String> = Vec::new();
        k = 0;
        while k < products.len()
            invariant
                k <= products@.len(),
                product_ids@.len() == k,
                forall|t: int| 0 <= t < k ==> (#[trigger] product_ids@[t])@ == products@[t].id@,
            decreases products.len() - k,
        {
            product_ids.push(products[k].id.clone());
            k = k + 1;
        }
        let mut record_ids: Vec<String> = Vec::new();
        k = 0;
        while k < records.len()
            invariant
                k <= records@.len(),
                record_ids@.len() == k,
                forall|t: int| 0 <= t < k ==> (#[trigger] record_ids@[t])@ == records@[t].id@,
            decreases records.len() - k,
        {
            record_ids.push(records[k].id.clone());
            k = k + 1;
        }
        let keyed = all_distinct(&class_ids) && all_distinct(&student_ids) && all_distinct(&product_ids)
            && all_distinct(&record_ids);
        proof {
            if strings_distinct(class_ids@) {
                assert forall|a: int, b: int| 0 <= a < b < classes@.len() implies (#[trigger] classes@[a]).id@
                    != (#[trigger] classes@[b]).id@ by {
                    assert(class_ids@[a]@ != class_ids@[b]@);
                }
            } else {
                let (a, b) = choose|a: int, b: int| 0 <= a < b < class_ids@.len() && (#[trigger] class_ids@[a])@ == (#[trigger] class_ids@[b])@;
                assert(classes@[a].id@ == classes@[b].id@);
            }
            if strings_distinct(student_ids@) {
                assert forall|a: int, b: int| 0 <= a < b < students@.len() implies (#[trigger] students@[a]).id@
                    != (#[trigger] students@[b]).id@ by {
                    assert(student_ids@[a]@ != student_ids@[b]@);
                }
            } else {
                let (a, b) = choose|a: int, b: int| 0 <= a < b < student_ids@.len() && (#[trigger] student_ids@[a])@ == (#[trigger] student_ids@[b])@;
                assert(students@[a].id@ == students@[b].id@);
            }
            if strings_distinct(product_ids@) {
                assert forall|a: int, b: int| 0 <= a < b < products@.len() implies (#[trigger] products@[a]).id@
                    != (#[trigger] products@[b]).id@ by {
                    assert(product_ids@[a]@ != product_ids@[b]@);
                }
            } else {
                let (a, b) = choose|a: int, b: int| 0 <= a < b < product_ids@.len() && (#[trigger] product_ids@[a])@ == (#[trigger] product_ids@[b])@;
                assert(products@[a].id@ == products@[b].id@);
            }
            if strings_distinct(record_ids@) {
                assert forall|a: int, b: int| 0 <= a < b < records@.len() implies (#[trigger] records@[a]).id@
                    != (#[trigger] records@[b]).id@ by {
                    assert(record_ids@[a]@ != record_ids@[b]@);
                }
            } else {
                let (a, b) = choose|a: int, b: int| 0 <= a < b < record_ids@.len() && (#[trigger] record_ids@[a])@ == (#[trigger] record_ids@[b])@;
                assert(records@[a].id@ == records@[b].id@);
            }
        }
        if !keyed {
            return Err(StoreError::AlreadyExists);
        }
        let ghost rows = students@;
        let mut loaded: Vec<Student> = Vec::new();
        let mut rest = students;
        let mut taken: Vec<StoredStudent> = Vec::new();
        k = 0;
        let n = rest.len();
        while k < n
            invariant
                n == rows.len(),
                k <= n,
                loaded@.len() == k,
                rest@ == rows.skip(k as int),
                forall|t: int| 0 <= t < k ==> loaded_student(rows[t], #[trigger] loaded@[t], now),
            decreases n - k,
        {
            let row = rest.remove(0);
            proof {
                assert(rows.skip(k + 1) =~= rows.skip(k as int).remove(0));
            }
            loaded.push(load_student(row, now));
            k = k + 1;
        }
        let mut db = Database { classes: classes, students: loaded, products: products, records: records };
        let total = db.students.len();
        let ghost cs = db@.classes;
        let ghost st = db@.students;
        proof {
            assert forall|a: int, b: int| 0 <= a < b < st.len() implies (#[trigger] st[a]).id@ != (#[trigger] st[b]).id@ by {
                assert(rows[a].id@ != rows[b].id@);
            }
            assert forall|a: int, b: int|
                0 <= a < b < rows.len() && lacks_number(rows[a]) && lacks_number(rows[b])
                    implies (#[trigger] st[a]).student_number@ != (#[trigger] st[b]).student_number@ by {
                assert(loaded_student(rows[a], st[a], now));
                assert(loaded_student(rows[b], st[b], now));
                lemma_synthesized_injective(rows[a].id@, rows[b].id@);
            }
        }
        let mut pos: usize = 0;
        while pos < db.classes.len()
            invariant
                st.len() == total,
                db@.students == st,
                db@.products == products@,
                db@.records == records@,
                db@.classes.len() == cs.len(),
                pos <= cs.len(),
                forall|t: int| 0 <= t < pos ==> #[trigger] db@.classes[t] == recounted(cs, st)[t],
                forall|t: int| pos <= t < cs.len() ==> #[trigger] db@.classes[t] == cs[t],
            decreases cs.len() - pos,
        {
            db.recount_class(pos);
            pos = pos + 1;
        }
        proof {
            assert(db@.classes =~= recounted(cs, st));
            let dc = db@.classes;
            assert forall|t: int| 0 <= t < dc.len() implies (#[trigger] dc[t]).student_count == count_in(st, dc[t].id@) by {
                assert(count_in(st, cs[t].id@) <= st.len());
            }
            assert forall|a: int, b: int| 0 <= a < b < dc.len() implies (#[trigger] dc[a]).id@ != (#[trigger] dc[b]).id@ by {
                assert(cs[a].id@ != cs[b].id@);
            }
        }
        Ok(db)
    }

    /// Fills an empty store with one sample class and one student in it,
    /// under the given ids, created at `now`. A store that holds a class is
    /// left as it is; an id already in use leaves the store unchanged.
    pub fn init_sample_data_with(&mut self, class_id: String, student_id: String, now: i64) -> (r: Result<
        (),
        StoreError,
    >)
        requires
            old(self).wf(),
        ensures
            final(self).wf(),
            old(self)@.classes.len() > 0 ==> r == Ok::<(), StoreError>(()) && final(self)@ == old(self)@,
            r is Err ==> r == Err::<(), StoreError>(StoreError::AlreadyExists) && final(self)@ == old(self)@,
            old(self)@.classes.len() == 0 ==> (r is Ok <==> !referenced_by_student(old(self)@.students, class_id@)
                && !has_student(old(self)@.students, student_id@)),
            old(self)@.classes.len() == 0 && r is Ok ==> seeded(old(self)@, final(self)@, class_id@, student_id@),
    {
        if self.classes.len() > 0 {
            return Ok(());
        }
        if self.is_class_referenced(class_id.as_str()) || self.find_student(student_id.as_str()).is_some() {
            return Err(StoreError::AlreadyExists);
        }
        let ghost before = self@;
        let ghost cid0 = class_id@;
        let ghost sid0 = student_id@;
        let cid = class_id.clone();
        let class_req = CreateClassRequest {
            name: String::from_str("计算机科学与技术2021级1班"),
            description: Some(String::from_str("计算机科学与技术专业")),
        };
        match self.create_class_with(class_id, now, class_req) {
            Ok(_) => {},
            Err(e) => return Err(e),
        }
        let ghost mid = self@;
        let student_req = CreateStudentRequest {
            name: String::from_str("张三"),
            student_number: String::from_str("2021001"),
            points: 85,
            class_id: cid,
        };
        proof {
            assert(mid.classes[0].id@ == cid@);
        }
        match self.create_student_with(student_id, now, student_req) {
            Ok(_) => {},
            Err(e) => return Err(e),
        }
        proof {
            assert(class_pos(mid.classes, cid@) == 0);
            assert(self@.students == before.students.push(self@.students.last()));
            assert(seeded(before, self@, cid0, sid0));
        }
        Ok(())
    }

    /// Fills an empty store with one sample class and one student in it,
    /// under fresh random ids, created now.
    pub fn init_sample_data(&mut self) -> (r: Result<(), StoreError>)
        requires
            old(self).wf(),
        ensures
            final(self).wf(),
            old(self)@.classes.len() > 0 ==> r == Ok::<(), StoreError>(()) && final(self)@ == old(self)@,
            old(self)@.classes.len() == 0 && old(self)@.students.len() == 0 ==> r is Ok,
            r is Err ==> {
                &&& r == Err::<(), StoreError>(StoreError::AlreadyExists)
                &&& final(self)@ == old(self)@
                &&& exists|id: Seq<char>|
                    id.len() == 36 && (referenced_by_student(old(self)@.students, id) || has_student(old(self)@.students, id))
            },
            old(self)@.classes.len() == 0 && r is Ok ==> seeded(
                old(self)@,
                final(self)@,
                final(self)@.classes[0].id@,
                final(self)@.students.last().id@,
            ),
    {
        let class_id = new_id();
        let student_id = new_id();
        let now = now_micros();
        let ghost c = class_id@;
        let ghost t = student_id@;
        let r = self.init_sample_data_with(class_id, student_id, now);
        proof {
            if r is Err {
                if referenced_by_student(old(self)@.students, c) {
                    assert(c.len() == 36 && referenced_by_student(old(self)@.students, c));
                } else {
                    assert(t.len() == 36 && has_student(old(self)@.students, t));
                }
            }
        }
        r
    }

    /// Opens a store over the rows of an existing file: loads them as
    /// `from_rows` does, at the current time, then seeds an empty store.
    pub fn new(
        classes: Vec<Class>,
        students: Vec<StoredStudent>,
        products: Vec<Product>,
        records: Vec<PurchaseRecord>,
    ) -> (r: Result<Database, StoreError>)
        ensures
            !rows_keyed(classes@, students@, products@, records@) ==> r == Err::<Database, StoreError>(
                StoreError::AlreadyExists,
            ),
            rows_keyed(classes@, students@, products@, records@) && classes@.len() > 0 ==> r is Ok,
            rows_keyed(classes@, students@, products@, records@) && students@.len() == 0 ==> r is Ok,
            match r {
                Ok(db) => {
                    &&& db.wf()
                    &&& exists|now: i64, loaded: Seq<Student>|
                        {
                            let base = loaded_view(classes@, loaded, products@, records@);
                            &&& #[trigger] loaded_rows(students@, loaded, now)
                            &&& classes@.len() > 0 ==> db@ == base
                            &&& classes@.len() == 0 ==> seeded(base, db@, db@.classes[0].id@, db@.students.last().id@)
                        }
                },
                Err(e) => e == StoreError::AlreadyExists,
            },
    {
        let now = now_micros();
        let mut db = match Database::from_rows(classes, students, products, records, now) {
            Ok(db) => db,
            Err(e) => return Err(e),
        };
        let ghost base = db@;
        let r = db.init_sample_data();
        proof {
            assert(base == loaded_view(classes@, base.students, products@, records@));
            assert(loaded_rows(students@, base.students, now));
        }
        match r {
            Ok(()) => Ok(db),
            Err(e) => Err(e),
        }
    }
}

impl Database {
    /// Every product, in the order they were added.
    pub fn get_all_products(&self) -> (r: Vec<Product>)
        ensures
            r@ == self@.products,
    {
        let mut out: Vec<Product> = Vec::new();
        let mut k: usize = 0;
        while k < self.products.len()
            invariant
                k <= self.products@.len(),
                out@ == self@.products.take(k as int),
            decreases self.products.len() - k,
        {
            out.push(self.products[k].copy());
            proof {
                assert(self@.products.take(k + 1) == self@.products.take(k as int).push(self@.products[k as int]));
            }
            k = k + 1;
        }
        proof {
            assert(self@.products.take(self@.products.len() as int) == self@.products);
        }
        out
    }

    /// Every purchase record, in the order they were added.
    pub fn get_all_purchase_records(&self) -> (r: Vec<PurchaseRecord>)
        ensures
            r@ == self@.records,
    {
        let mut out: Vec<PurchaseRecord> = Vec::new();
        let mut k: usize = 0;
        while k < self.records.len()
            invariant
                k <= self.records@.len(),
                out@ == self@.records.take(k as int),
            decreases self.records.len() - k,
        {
            out.push(self.records[k].copy());
            proof {
                assert(self@.records.take(k + 1) == self@.records.take(k as int).push(self@.records[k as int]));
            }
            k = k + 1;
        }
        proof {
            assert(self@.records.take(self@.records.len() as int) == self@.records);
        }
        out
    }
}

} // verus!
