use vstd::prelude::*;

verus! {

/// The requested window lies beyond the end of the list of names.
#[derive(Debug, Clone, Copy, PartialEq, Eq)]
pub struct OutOfBounds {
    /// How many names there were.
    pub len: usize,
}

/// The names from `offset` on, at most `limit` of them; an error where the
/// window `offset .. offset + limit` does not lie within the list.
pub fn slicing_the_loop(names: &Vec<String>, offset: usize, limit: usize) -> (r: Result<Vec<String>, OutOfBounds>)
    requires
        offset + limit <= usize::MAX,
    ensures
        offset + limit <= names.len() <==> r is Ok,
        r matches Ok(v) ==> v@ == names@.subrange(offset as int, offset + limit),
        r matches Ok(v) ==> v.len() == limit,
        r matches Err(e) ==> e.len == names.len(),
{
    let end = offset + limit;
    if end > names.len() {
        return Err(OutOfBounds { len: names.len() });
    }
    let mut out: Vec<String> = Vec::new();
    let mut i: usize = offset;
    while i < end
        invariant
            offset <= i <= end,
            end == offset + limit,
            end <= names.len(),
            out@ == names@.subrange(offset as int, i as int),
        decreases end - i,
    {
        out.push(names[i].clone());
        i = i + 1;
    }
    Ok(out)
}

} // verus!
