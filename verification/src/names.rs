//! Block and material names: "minecraft:oak_slab[type=top]" has the base
//! name "oak_slab", and its material is "minecraft:oak_slab".
use vstd::prelude::*;
use vstd::string::StrSliceExecFns;

verus! {

/// The first index at or after `i` where `s` holds `c`.
pub open spec fn first_index_from(s: Seq<char>, c: char, i: int) -> Option<int>
    decreases s.len() - i,
{
    if i < 0 || i >= s.len() {
        None
    } else if s[i] == c {
        Some(i)
    } else {
        first_index_from(s, c, i + 1)
    }
}

/// The first index where `s` holds `c`.
pub open spec fn first_index(s: Seq<char>, c: char) -> Option<int> {
    first_index_from(s, c, 0)
}

/// The last index below `n` where `s` holds `c`.
pub open spec fn last_index_below(s: Seq<char>, c: char, n: int) -> Option<int>
    decreases n,
{
    if n <= 0 {
        None
    } else if s[n - 1] == c {
        Some(n - 1)
    } else {
        last_index_below(s, c, n - 1)
    }
}

/// The last index where `s` holds `c`.
pub open spec fn last_index(s: Seq<char>, c: char) -> Option<int> {
    last_index_below(s, c, s.len() as int)
}

/// A block name without its state properties (from the first `[` on) and
/// without its namespace (up to the first `:`).
pub open spec fn block_base_name(name: Seq<char>) -> Seq<char> {
    let stripped = match first_index(name, '[') {
        Some(p) => name.take(p),
        None => name,
    };
    match first_index(stripped, ':') {
        Some(p) => stripped.skip(p + 1),
        None => stripped,
    }
}

/// The material of a base name: "minecraft:" and the part after its last
/// `:` (the whole name where it has none).
pub open spec fn material_name(base: Seq<char>) -> Seq<char> {
    let last = match last_index(base, ':') {
        Some(p) => base.skip(p + 1),
        None => base,
    };
    "minecraft:"@ + last
}

proof fn lemma_first_index_from(s: Seq<char>, c: char, i: int)
    requires
        0 <= i <= s.len(),
    ensures
        match first_index_from(s, c, i) {
            Some(p) => i <= p < s.len() && s[p] == c && forall|q: int| i <= q < p ==> s[q] != c,
            None => forall|q: int| i <= q < s.len() ==> s[q] != c,
        },
    decreases s.len() - i,
{
    if i < s.len() && s[i] != c {
        lemma_first_index_from(s, c, i + 1);
    }
}

proof fn lemma_last_index_below(s: Seq<char>, c: char, n: int)
    requires
        0 <= n <= s.len(),
    ensures
        match last_index_below(s, c, n) {
            Some(p) => 0 <= p < n && s[p] == c && forall|q: int| p < q < n ==> s[q] != c,
            None => forall|q: int| 0 <= q < n ==> s[q] != c,
        },
    decreases n,
{
    if n > 0 && s[n - 1] != c {
        lemma_last_index_below(s, c, n - 1);
    }
}

/// The first index where `s` holds `c`, if any.
pub fn find_first(s: &str, c: char) -> (r: Option<usize>)
    ensures
        match r {
            Some(p) => first_index(s@, c) == Some(p as int) && p < s@.len() && s@[p as int] == c,
            None => first_index(s@, c) is None,
        },
{
    let n = s.unicode_len();
    let mut i: usize = 0;
    while i < n
        invariant
            n == s@.len(),
            0 <= i <= n,
            forall|q: int| 0 <= q < i ==> s@[q] != c,
        decreases n - i,
    {
        if s.get_char(i) == c {
            proof {
                lemma_first_index_from(s@, c, 0);
            }
            return Some(i);
        }
        i += 1;
    }
    proof {
        lemma_first_index_from(s@, c, 0);
    }
    None
}

/// The last index where `s` holds `c`, if any.
pub fn find_last(s: &str, c: char) -> (r: Option<usize>)
    ensures
        match r {
            Some(p) => last_index(s@, c) == Some(p as int) && p < s@.len() && s@[p as int] == c,
            None => last_index(s@, c) is None,
        },
{
    let n = s.unicode_len();
    let mut i: usize = n;
    while i > 0
        invariant
            n == s@.len(),
            0 <= i <= n,
            forall|q: int| i <= q < n ==> s@[q] != c,
        decreases i,
    {
        if s.get_char(i - 1) == c {
            proof {
                lemma_last_index_below(s@, c, n as int);
            }
            return Some(i - 1);
        }
        i -= 1;
    }
    proof {
        lemma_last_index_below(s@, c, n as int);
    }
    None
}

/// Strips block state properties and namespace:
/// "minecraft:oak_slab[type=top]" gives "oak_slab".
pub fn get_block_base_name(name: &str) -> (r: String)
    ensures
        r@ == block_base_name(name@),
{
    let stripped = match find_first(name, '[') {
        Some(pos) => {
            proof {
                lemma_first_index_from(name@, '[', 0);
            }
            name.substring_char(0, pos)
        },
        None => name,
    };
    proof {
        assert(stripped@ == match first_index(name@, '[') {
            Some(p) => name@.take(p),
            None => name@,
        });
    }
    match find_first(stripped, ':') {
        Some(pos) => {
            proof {
                lemma_first_index_from(stripped@, ':', 0);
            }
            let n = stripped.unicode_len();
            String::from_str(stripped.substring_char(pos + 1, n))
        },
        None => String::from_str(stripped),
    }
}

/// The material of a base name: "minecraft:" and its part after the last
/// `:`.
pub fn get_material_name(base: &str) -> (r: String)
    ensures
        r@ == material_name(base@),
{
    let last = match find_last(base, ':') {
        Some(pos) => {
            proof {
                lemma_last_index_below(base@, ':', base@.len() as int);
            }
            let n = base.unicode_len();
            base.substring_char(pos + 1, n)
        },
        None => base,
    };
    let mut r = String::from_str("minecraft:");
    r.append(last);
    r
}

} // verus!
