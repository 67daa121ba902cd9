use vstd::prelude::*;

verus! {

/// The directories tried for the store file, in order of preference.
pub fn data_dir_candidates() -> (r: Vec<String>)
    ensures
        r@.len() == 3,
        r@[0]@ == "D:\\PointHub"@,
        r@[1]@ == "E:\\PointHub"@,
        r@[2]@ == "F:\\PointHub"@,
{
    let mut r: Vec<String> = Vec::new();
    r.push(String::from_str("D:\\PointHub"));
    r.push(String::from_str("E:\\PointHub"));
    r.push(String::from_str("F:\\PointHub"));
    r
}

/// The name of the store file inside the chosen directory.
pub fn database_file_name() -> (r: String)
    ensures
        r@ == "pointhub.db"@,
{
    String::from_str("pointhub.db")
}

/// Whether the first `n` flags hold a `true`.
pub open spec fn some_flag(flags: Seq<bool>, n: int) -> bool {
    exists|i: int| 0 <= i < n && #[trigger] flags[i]
}

/// The directory for the store file: the first candidate whose parent
/// directory exists (`parent_exists[i]` tells of `candidates[i]`), else
/// `fallback`.
pub fn find_best_data_location(candidates: &Vec<String>, parent_exists: &Vec<bool>, fallback: &String) -> (r: String)
    ensures
        ({
            let n = if candidates@.len() < parent_exists@.len() { candidates@.len() as int } else { parent_exists@.len() as int };
            &&& some_flag(parent_exists@, n) ==> exists|i: int|
                0 <= i < n && #[trigger] parent_exists@[i] && (forall|j: int| 0 <= j < i ==> !parent_exists@[j])
                    && r@ == candidates@[i]@
            &&& !some_flag(parent_exists@, n) ==> r@ == fallback@
        }),
{
    let n = if candidates.len() < parent_exists.len() { candidates.len() } else { parent_exists.len() };
    let mut i: usize = 0;
    while i < n
        invariant
            n <= candidates@.len(),
            n <= parent_exists@.len(),
            n == candidates@.len() || n == parent_exists@.len(),
            n <= candidates@.len() && n <= parent_exists@.len(),
            i <= n,
            forall|j: int| 0 <= j < i ==> !parent_exists@[j],
        decreases n - i,
    {
        if parent_exists[i] {
            return candidates[i].clone();
        }
        i = i + 1;
    }
    fallback.clone()
}

} // verus!
