//! Names of the files the batch converter writes.

use vstd::prelude::*;
use vstd::string::StringExecFns;
use crate::strings::{chars_of, string_from_chars};

verus! {

/// True when `name` ends with ".sen".
pub open spec fn ends_with_sen(name: Seq<char>) -> bool {
    name.len() >= 4 && name.skip(name.len() - 4) == ".sen"@
}

/// `name` with every trailing ".sen" taken off (`str::trim_end_matches`).
pub open spec fn without_sen(name: Seq<char>) -> Seq<char>
    decreases name.len(),
{
    if ends_with_sen(name) {
        without_sen(name.take(name.len() - 4))
    } else {
        name
    }
}

/// The name an encrypted copy of `original_name` gets: ".sen" added.
pub fn batch_encrypted_name(original_name: &str) -> (res: String)
    ensures
        res@ == original_name@ + ".sen"@,
{
    let mut res = original_name.to_owned();
    res.append(".sen");
    res
}

/// The name a decrypted copy of `original_name` gets: every trailing ".sen"
/// taken off, then `.extension` added unless the extension is empty.
pub fn batch_decrypted_name(original_name: &str, extension: &str) -> (res: String)
    ensures
        res@ == if extension@.len() == 0 {
            without_sen(original_name@)
        } else {
            without_sen(original_name@) + "."@ + extension@
        },
{
    let cs = chars_of(original_name);
    let ext = chars_of(".sen");
    proof { reveal_strlit(".sen"); }
    let mut end: usize = cs.len();
    let mut done = false;
    assert(cs@.take(end as int) =~= original_name@);
    while !done
        invariant
            cs@ == original_name@,
            ext@ == ".sen"@,
            ext@.len() == 4,
            end <= cs@.len(),
            without_sen(original_name@) == without_sen(cs@.take(end as int)),
            done ==> !ends_with_sen(cs@.take(end as int)),
        decreases end, (if done { 0int } else { 1int }),
    {
        let ghost cur = cs@.take(end as int);
        let mut matches = end >= 4;
        let mut k: usize = 0;
        while matches && k < 4
            invariant
                cs@ == original_name@,
                ext@ == ".sen"@,
                ext@.len() == 4,
                end <= cs@.len(),
                cur == cs@.take(end as int),
                k <= 4,
                matches ==> end >= 4 && forall|m: int| 0 <= m < k ==> cs@[end - 4 + m] == ext@[m],
                !matches ==> !ends_with_sen(cur),
            decreases 4 - k,
        {
            if cs[end - 4 + k] != ext[k] {
                assert(cur.skip(end - 4)[k as int] != ".sen"@[k as int]);
                matches = false;
                k = 4;
            } else {
                k = k + 1;
            }
        }
        if matches {
            assert(cur.skip(end - 4) =~= ".sen"@);
            assert(cur.take(end - 4) =~= cs@.take(end - 4));
            end = end - 4;
        } else {
            done = true;
        }
    }
    let mut res = string_from_chars(&cs, 0, end);
    assert(cs@.subrange(0, end as int) =~= cs@.take(end as int));
    if extension.unicode_len() > 0 {
        res.append(".");
        res.append(extension);
    }
    res
}

/// The name used instead when the decrypted copy would replace the file it
/// is read from.
pub fn collision_free_name(name: &str) -> (res: String)
    ensures
        res@ == name@ + ".decrypted"@,
{
    let mut res = name.to_owned();
    res.append(".decrypted");
    res
}

} // verus!
