use vstd::prelude::*;

verus! {

/// The counter value after handing out one identifier: one higher,
/// wrapping to zero at the top of the range.
pub open spec fn spec_wrapping_inc(c: u32) -> u32 {
    if c == u32::MAX {
        0u32
    } else {
        (c + 1) as u32
    }
}

/// Hand out the next model identifier and advance the counter.
///
/// The counter is owned by the loading context and passed in explicitly;
/// it wraps silently at the top of the range.
pub fn next_id(counter: &mut u32) -> (id: u32)
    ensures
        id == *old(counter),
        *final(counter) == spec_wrapping_inc(*old(counter)),
{
    let id = *counter;
    if *counter == u32::MAX {
        *counter = 0;
    } else {
        *counter = *counter + 1;
    }
    id
}

/// Looking up a named scalar parameter a material format keeps in its
/// free-form key/value section. Loaders implement this for the material
/// records their format library hands back.
pub trait GetUnknownMaterialParam<T> {
    fn get_unknown(&self, param: &str) -> T;
}

/// The position just past the next space at or after `i`, or the end of
/// the text when no space is left.
pub open spec fn skip_token(s: Seq<u8>, i: int) -> int
    decreases s.len() - i,
    when i >= 0
{
    if 0 <= i < s.len() {
        if s[i] == 32 {
            i + 1
        } else {
            skip_token(s, i + 1)
        }
    } else {
        s.len() as int
    }
}

/// Skipping a token moves forward and never runs past the end.
pub proof fn lemma_skip_token_bounds(s: Seq<u8>, i: int)
    requires
        0 <= i,
    ensures
        i < s.len() ==> i + 1 <= skip_token(s, i) <= s.len(),
        i >= s.len() ==> skip_token(s, i) == s.len(),
    decreases s.len() - i,
{
    if 0 <= i < s.len() && s[i] != 32 {
        lemma_skip_token_bounds(s, i + 1);
    }
}

/// Where the plain texture file name starts: as long as the text at the
/// cursor starts with a dash, a flag and its argument (two space-ended
/// tokens) are skipped. A token whose ending space is missing consumes the
/// rest of the text and ends the scan there.
pub open spec fn strip_from(s: Seq<u8>, i: int) -> int
    decreases s.len() - i,
    when i >= 0
    via strip_from_decreases
{
    if 0 <= i < s.len() && s[i] == 45 {
        strip_from(s, skip_token(s, skip_token(s, i)))
    } else {
        i
    }
}

#[via_fn]
proof fn strip_from_decreases(s: Seq<u8>, i: int) {
    if 0 <= i < s.len() && s[i] == 45 {
        lemma_skip_token_bounds(s, i);
        lemma_skip_token_bounds(s, skip_token(s, i));
    }
}

/// The position just past the next space at or after `i`, or the end of
/// `path` when no space is left.
fn skip_token_exec(path: &Vec<u8>, i: usize) -> (r: usize)
    requires
        i <= path@.len(),
    ensures
        r as int == skip_token(path@, i as int),
        i <= r <= path@.len(),
{
    let mut j: usize = i;
    while j < path.len() && path[j] != 32
        invariant
            i <= j <= path@.len(),
            skip_token(path@, i as int) == skip_token(path@, j as int),
        decreases path@.len() - j,
    {
        j = j + 1;
    }
    proof {
        lemma_skip_token_bounds(path@, j as int);
    }
    if j < path.len() {
        j + 1
    } else {
        j
    }
}

/// Skip the leading `-flag argument ` groups of a texture file reference
/// and hand back the position where the plain file name starts.
///
/// Material files may prefix a texture file name with option flags, each
/// followed by one argument; the loader wants the bare name. The scan
/// works on bytes, so the position is a byte offset into the reference.
pub fn strip_flags(path: &Vec<u8>) -> (start: usize)
    ensures
        start as int == strip_from(path@, 0),
        start <= path@.len(),
{
    let mut i: usize = 0;
    while i < path.len() && path[i] == 45
        invariant
            0 <= i <= path@.len(),
            strip_from(path@, 0) == strip_from(path@, i as int),
        decreases path@.len() - i,
    {
        let j = skip_token_exec(path, i);
        let k = skip_token_exec(path, j);
        proof {
            lemma_skip_token_bounds(path@, i as int);
            lemma_skip_token_bounds(path@, j as int);
        }
        i = k;
    }
    i
}

} // verus!
