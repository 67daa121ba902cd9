use vstd::prelude::*;

verus! {

/// A cohort of students. `created_at` counts microseconds since the Unix
/// epoch, UTC.
#[derive(Debug, Clone, PartialEq, Eq)]
pub struct Class {
    pub id: String,
    pub name: String,
    pub description: Option<String>,
    pub student_count: usize,
    pub created_at: i64,
}

/// A member of a class. `class_name` is a copy of the owning class's name.
#[derive(Debug, Clone, PartialEq, Eq)]
pub struct Student {
    pub id: String,
    pub name: String,
    pub student_number: String,
    pub points: i32,
    pub class_id: String,
    pub class_name: String,
    pub created_at: i64,
}

/// A student row as found in an existing store file, where older files may
/// lack the student number or the creation time.
#[derive(Debug, Clone, PartialEq, Eq)]
pub struct StoredStudent {
    pub id: String,
    pub name: String,
    pub student_number: Option<String>,
    pub points: i32,
    pub class_id: String,
    pub class_name: String,
    pub created_at: Option<i64>,
}

/// A redeemable item scoped to a class, priced in points.
#[derive(Debug, Clone, PartialEq, Eq)]
pub struct Product {
    pub id: String,
    pub name: String,
    pub points: i32,
    pub stock: i32,
    pub class_id: String,
    pub created_at: i64,
}

/// A student redeeming `quantity` units of a product; `points` is the
/// product's price per unit at the time of purchase.
#[derive(Debug, Clone, PartialEq, Eq)]
pub struct PurchaseRecord {
    pub id: String,
    pub product_id: String,
    pub product_name: String,
    pub points: i32,
    pub student_id: String,
    pub student_name: String,
    pub quantity: i32,
    pub class_id: String,
    pub created_at: i64,
    pub shipping_status: String,
}

#[derive(Debug, Clone, PartialEq, Eq)]
pub struct CreateClassRequest {
    pub name: String,
    pub description: Option<String>,
}

#[derive(Debug, Clone, PartialEq, Eq)]
pub struct UpdateClassRequest {
    pub name: Option<String>,
    pub description: Option<String>,
}

#[derive(Debug, Clone, PartialEq, Eq)]
pub struct CreateStudentRequest {
    pub name: String,
    pub student_number: String,
    pub points: i32,
    pub class_id: String,
}

#[derive(Debug, Clone, PartialEq, Eq)]
pub struct UpdateStudentRequest {
    pub name: Option<String>,
    pub student_number: Option<String>,
    pub points: Option<i32>,
    pub class_id: Option<String>,
}

#[derive(Debug, Clone, PartialEq, Eq)]
pub struct CreateProductRequest {
    pub name: String,
    pub points: i32,
    pub stock: i32,
    pub class_id: String,
}

#[derive(Debug, Clone, PartialEq, Eq)]
pub struct UpdateProductRequest {
    pub name: Option<String>,
    pub points: Option<i32>,
    pub stock: Option<i32>,
}

#[derive(Debug, Clone, PartialEq, Eq)]
pub struct CreatePurchaseRequest {
    pub product_id: String,
    pub student_id: String,
    pub quantity: i32,
}

#[derive(Debug, Clone, PartialEq, Eq)]
pub struct UpdateShippingStatusRequest {
    pub shipping_status: String,
}

/// A copy of an optional string.
pub fn copy_opt(s: &Option<String>) -> (r: Option<String>)
    ensures
        r == *s,
{
    match s {
        Some(v) => Some(v.clone()),
        None => None,
    }
}

impl Class {
    pub fn copy(&self) -> (r: Class)
        ensures
            r == *self,
    {
        Class {
            id: self.id.clone(),
            name: self.name.clone(),
            description: copy_opt(&self.description),
            student_count: self.student_count,
            created_at: self.created_at,
        }
    }
}

impl Student {
    pub fn copy(&self) -> (r: Student)
        ensures
            r == *self,
    {
        Student {
            id: self.id.clone(),
            name: self.name.clone(),
            student_number: self.student_number.clone(),
            points: self.points,
            class_id: self.class_id.clone(),
            class_name: self.class_name.clone(),
            created_at: self.created_at,
        }
    }
}

impl Product {
    pub fn copy(&self) -> (r: Product)
        ensures
            r == *self,
    {
        Product {
            id: self.id.clone(),
            name: self.name.clone(),
            points: self.points,
            stock: self.stock,
            class_id: self.class_id.clone(),
            created_at: self.created_at,
        }
    }
}

impl PurchaseRecord {
    pub fn copy(&self) -> (r: PurchaseRecord)
        ensures
            r == *self,
    {
        PurchaseRecord {
            id: self.id.clone(),
            product_id: self.product_id.clone(),
            product_name: self.product_name.clone(),
            points: self.points,
            student_id: self.student_id.clone(),
            student_name: self.student_name.clone(),
            quantity: self.quantity,
            class_id: self.class_id.clone(),
            created_at: self.created_at,
            shipping_status: self.shipping_status.clone(),
        }
    }
}

} // verus!
