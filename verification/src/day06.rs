use vstd::prelude::*;
use crate::pattern::{Matcher, count_matches, regex_matches};

verus! {

/// Counts the occurrences of "elf" in `text`, as the matches of the regex `elf`.
pub fn elf_counting(re_elf: &Matcher, text: &str) -> (r: usize)
    requires
        re_elf@ == "elf"@,
    ensures
        r == regex_matches("elf"@, text@).len(),
{
    count_matches(re_elf, text)
}

} // verus!
