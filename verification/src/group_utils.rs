//! Lists as text.

use std::fmt::Display;
use vstd::prelude::*;
use vstd::string::*;

verus! {

/// The texts one after the other, with `sep` between them.
pub open spec fn joined(parts: Seq<Seq<char>>, sep: Seq<char>) -> Seq<char>
    decreases parts.len(),
{
    if parts.len() == 0 {
        Seq::empty()
    } else if parts.len() == 1 {
        parts[0]
    } else {
        joined(parts.drop_last(), sep) + sep + parts.last()
    }
}

/// `parts` are the texts of the items, item by item.
pub open spec fn texts_of<T: Display>(items: Seq<T>, parts: Seq<String>) -> bool {
    &&& parts.len() == items.len()
    &&& forall|i: int|
        0 <= i < items.len() ==> to_string_from_display_ensures::<T>(&items[i], #[trigger] parts[i])
}

/// The items of `vec` as text, with `sep` between them.
pub fn list_vec<T: Display>(vec: &[T], sep: &str) -> (s: String)
    ensures
        exists|parts: Seq<String>|
            texts_of(vec@, parts) && s@ == joined(parts.map_values(|t: String| t@), sep@),
{
    let mut out = String::new();
    let ghost mut parts: Seq<String> = Seq::empty();
    let mut i: usize = 0;
    while i < vec.len()
        invariant
            i <= vec.len(),
            texts_of(vec@.take(i as int), parts),
            out@ == joined(parts.map_values(|t: String| t@), sep@),
        decreases vec.len() - i,
    {
        let piece = vec[i].to_string();
        let ghost before = parts;
        if i > 0 {
            out.append(sep);
        }
        out.append(piece.as_str());
        proof {
            parts = before.push(piece);
            let views = parts.map_values(|t: String| t@);
            assert(views.drop_last() =~= before.map_values(|t: String| t@));
            assert(views.last() == piece@);
            if i > 0 {
                assert(out@ =~= joined(views.drop_last(), sep@) + sep@ + piece@);
            } else {
                assert(out@ =~= piece@);
            }
            assert forall|k: int| 0 <= k < i + 1 implies to_string_from_display_ensures::<T>(
                &vec@.take(i + 1)[k],
                #[trigger] parts[k],
            ) by {
                if k < i {
                    assert(parts[k] == before[k]);
                    assert(vec@.take(i + 1)[k] == vec@.take(i as int)[k]);
                }
            }
        }
        i = i + 1;
    }
    proof {
        assert(vec@.take(i as int) =~= vec@);
    }
    out
}

} // verus!
