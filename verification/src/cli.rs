//! Command-line words.

use vstd::prelude::*;
use vstd::string::*;

verus! {

/// The first word from `from` on that is `key`; the number of words where there
/// is none.
pub open spec fn word_at(args: Seq<String>, key: Seq<char>, from: int) -> int
    decreases args.len() - from,
{
    if from < 0 || from >= args.len() {
        args.len() as int
    } else if args[from]@ == key {
        from
    } else {
        word_at(args, key, from + 1)
    }
}

/// The word after the first `key`.
pub fn arg_value(args: &[String], key: &str) -> (r: Option<String>)
    ensures
        ({
            let i = word_at(args@, key@, 0);
            &&& r is Some <==> i + 1 < args@.len()
            &&& r matches Some(v) ==> v@ == args@[i + 1]@
        }),
{
    let k: String = key.to_owned();
    let mut i: usize = 0;
    while i < args.len()
        invariant
            i <= args@.len(),
            k@ == key@,
            word_at(args@, key@, 0) == word_at(args@, key@, i as int),
        decreases args@.len() - i,
    {
        if args[i] == k {
            if i < args.len() - 1 {
                return Some(args[i + 1].clone());
            }
            return None;
        }
        i = i + 1;
    }
    None
}

/// `key` is one of the words.
pub fn has_word(args: &[String], key: &str) -> (r: bool)
    ensures
        r == (word_at(args@, key@, 0) < args@.len()),
{
    let k: String = key.to_owned();
    let mut i: usize = 0;
    while i < args.len()
        invariant
            i <= args@.len(),
            k@ == key@,
            word_at(args@, key@, 0) == word_at(args@, key@, i as int),
        decreases args@.len() - i,
    {
        if args[i] == k {
            return true;
        }
        i = i + 1;
    }
    false
}

} // verus!
