use vstd::prelude::*;
use vstd::string::StrSliceExecFns;

verus! {

/// Uses `split_at_mut` internally to give two mutable references into a slice.
/// The two indexes differ and lie in the slice.
pub fn get_mut_2<T>(slice: &mut [T], a: u32, b: u32) -> (r: (&mut T, &mut T))
    requires
        a != b,
        a < old(slice)@.len(),
        b < old(slice)@.len(),
    ensures
        *r.0 == old(slice)@[a as int],
        *r.1 == old(slice)@[b as int],
        final(slice)@ == old(slice)@.update(a as int, *final(r.0)).update(b as int, *final(r.1)),
{
    let a = a as usize;
    let b = b as usize;
    if a < b {
        let (a_slice, b_slice) = slice.split_at_mut(b);
        let (_, a_rest) = a_slice.split_at_mut(a);
        (a_rest.first_mut().unwrap(), b_slice.first_mut().unwrap())
    } else {
        let (b_slice, a_slice) = slice.split_at_mut(a);
        let (_, b_rest) = b_slice.split_at_mut(b);
        (a_slice.first_mut().unwrap(), b_rest.first_mut().unwrap())
    }
}

/// Where the piece of `s` after the last `::` starts, scanning from `i` with the
/// current piece starting at `start`; separators are found from the left and do
/// not overlap.
pub open spec fn last_piece_from(s: Seq<char>, i: int, start: int) -> int
    decreases s.len() - i,
{
    if i + 1 >= s.len() {
        start
    } else if s[i] == ':' && s[i + 1] == ':' {
        last_piece_from(s, i + 2, i + 2)
    } else {
        last_piece_from(s, i + 1, start)
    }
}

/// The short form of a type's name: the name itself when it has generic
/// arguments, else the last segment of its path.
pub open spec fn short_name(name: Seq<char>) -> Seq<char> {
    if name.contains('<') {
        name
    } else {
        name.skip(last_piece_from(name, 0, 0))
    }
}

proof fn lemma_last_piece_bounds(s: Seq<char>, i: int, start: int)
    requires
        0 <= start <= i,
        start <= s.len(),
    ensures
        0 <= last_piece_from(s, i, start) <= s.len(),
    decreases s.len() - i,
{
    if i + 1 < s.len() {
        if s[i] == ':' && s[i + 1] == ':' {
            lemma_last_piece_bounds(s, i + 2, i + 2);
        } else {
            lemma_last_piece_bounds(s, i + 1, start);
        }
    }
}

/// The short form of the type name `name`: `name` itself when it has generic
/// arguments, else the part after its last `::`.
pub fn short_name_of<'a>(name: &'a str) -> (r: &'a str)
    ensures
        r@ == short_name(name@),
{
    let n = name.unicode_len();
    let mut k: usize = 0;
    while k < n
        invariant
            n == name@.len(),
            0 <= k <= n,
            forall|j: int| 0 <= j < k ==> name@[j] != '<',
        decreases n - k,
    {
        if name.get_char(k) == '<' {
            proof {
                assert(name@.contains('<'));
            }
            return name;
        }
        k += 1;
    }
    proof {
        if name@.contains('<') {
            let j = choose|j: int| 0 <= j < name@.len() && name@[j] == '<';
        }
    }
    let mut i: usize = 0;
    let mut start: usize = 0;
    while i < n && i + 1 < n
        invariant
            n == name@.len(),
            0 <= start <= i,
            i <= n,
            start <= n,
            last_piece_from(name@, i as int, start as int) == last_piece_from(name@, 0, 0),
        decreases n - i,
    {
        if name.get_char(i) == ':' && name.get_char(i + 1) == ':' {
            i = i + 2;
            start = i;
        } else {
            i = i + 1;
        }
    }
    proof {
        lemma_last_piece_bounds(name@, 0, 0);
    }
    name.substring_char(start, n)
}

} // verus!
