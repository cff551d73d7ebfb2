use vstd::prelude::*;
use vstd::string::StrSliceExecFns;

verus! {

/// The key name of an archive whose file name is `file_name`: the file name up to its
/// first dot, or all of it when it has none.
pub fn archive_key(file_name: &str) -> (key: String)
    ensures
        key@.len() <= file_name@.len(),
        key@ == file_name@.take(key@.len() as int),
        forall|j: int| 0 <= j < key@.len() ==> file_name@[j] != '.',
        key@.len() < file_name@.len() ==> file_name@[key@.len() as int] == '.',
{
    let n = file_name.unicode_len();
    let mut k: usize = 0;
    while k < n && file_name.get_char(k) != '.'
        invariant
            n == file_name@.len(),
            k <= n,
            forall|j: int| 0 <= j < k ==> file_name@[j] != '.',
        decreases n - k,
    {
        k += 1;
    }
    file_name.substring_char(0, k).to_owned()
}

/// How many zero bytes take `n` up to the next multiple of sixteen.
pub fn padding_to_16(n: u64) -> (pad: u64)
    ensures
        pad == (16 - n % 16) % 16,
        pad < 16,
        (n + pad) % 16 == 0,
{
    (16 - (n % 16)) % 16
}

} // verus!
