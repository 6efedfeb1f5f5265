//! The result formatter: turns a found path into a display line, eliding
//! relay pagination hops unless they are asked for.

use vstd::prelude::*;
use crate::schema::TypeMap;
use crate::search::TypeField;

verus! {

/// The display text of one hop: `Type.field`, or the bare type name.
pub open spec fn tf_text(tf: TypeField) -> Seq<char> {
    match tf.field_name {
        Some(f) => tf.ty_name@ + "."@ + f@,
        None => tf.ty_name@,
    }
}

/// A hop is printed when relay types are shown, or when its type is not
/// classified as relay by the map.
pub open spec fn hop_shown(tm: TypeMap, show_relay: bool, tf: TypeField) -> bool {
    show_relay || !(tm.contains_name(tf.ty_name@) && tm.spec_get(tf.ty_name@).spec_is_relay())
}

/// The first `n` hops of `p`, restricted to the ones that are printed.
pub open spec fn shown_upto(tm: TypeMap, show_relay: bool, p: Seq<TypeField>, n: int) -> Seq<
    TypeField,
>
    decreases n,
{
    if n <= 0 {
        Seq::empty()
    } else if hop_shown(tm, show_relay, p[n - 1]) {
        shown_upto(tm, show_relay, p, n - 1).push(p[n - 1])
    } else {
        shown_upto(tm, show_relay, p, n - 1)
    }
}

/// The hops joined by arrows.
pub open spec fn join_hops(s: Seq<TypeField>) -> Seq<char>
    decreases s.len(),
{
    if s.len() == 0 {
        Seq::empty()
    } else if s.len() == 1 {
        tf_text(s[0])
    } else {
        join_hops(s.drop_last()) + " -> "@ + tf_text(s.last())
    }
}

/// A whole display line: the target, a colon, and the visible hops joined
/// by arrows.
pub open spec fn line_text(
    tm: TypeMap,
    show_relay: bool,
    target: TypeField,
    p: Seq<TypeField>,
) -> Seq<char> {
    tf_text(target) + ": "@ + join_hops(shown_upto(tm, show_relay, p, p.len() as int))
}

impl TypeField {
    /// Renders this hop as `Type.field`, or the bare type name.
    pub fn render(&self) -> (r: String)
        ensures
            r@ == tf_text(*self),
    {
        let mut s = self.ty_name.clone();
        match &self.field_name {
            Some(f) => {
                s.append(".");
                s.append(f.as_str());
                proof {
                    assert(s@ =~= tf_text(*self));
                }
                s
            },
            None => s,
        }
    }
}

/// The hops of `path` that are printed, in order: all of them when
/// `show_relay` is set, otherwise the ones not classified as relay.
pub fn visible_hops(path: &Vec<TypeField>, show_relay: bool, type_map: &TypeMap) -> (r: Vec<
    TypeField,
>)
    ensures
        r@ == shown_upto(*type_map, show_relay, path@, path@.len() as int),
{
    let mut r: Vec<TypeField> = Vec::new();
    let mut i: usize = 0;
    while i < path.len()
        invariant
            i <= path@.len(),
            r@ == shown_upto(*type_map, show_relay, path@, i as int),
        decreases path@.len() - i,
    {
        let shown = if show_relay {
            true
        } else {
            match type_map.get(path[i].ty_name.as_str()) {
                Some(t) => !t.is_relay(),
                None => true,
            }
        };
        proof {
            assert(shown == hop_shown(*type_map, show_relay, path@[i as int]));
        }
        if shown {
            r.push(path[i].duplicate());
        }
        i += 1;
    }
    r
}

/// Builds the display line for one result: the target, a colon, and the
/// visible hops joined by arrows.
pub fn path_line(
    target: &TypeField,
    path: &Vec<TypeField>,
    show_relay: bool,
    type_map: &TypeMap,
) -> (r: String)
    ensures
        r@ == line_text(*type_map, show_relay, *target, path@),
{
    let hops = visible_hops(path, show_relay, type_map);
    let mut line = target.render();
    line.append(": ");
    let ghost prefix = line@;
    let mut i: usize = 0;
    while i < hops.len()
        invariant
            i <= hops@.len(),
            prefix == tf_text(*target) + ": "@,
            line@ == prefix + join_hops(hops@.subrange(0, i as int)),
        decreases hops@.len() - i,
    {
        let ghost pre = hops@.subrange(0, i as int);
        let ghost cur = hops@.subrange(0, i + 1);
        if i > 0 {
            line.append(" -> ");
        }
        let h = hops[i].render();
        line.append(h.as_str());
        proof {
            assert(cur.drop_last() =~= pre);
            assert(cur.last() == hops@[i as int]);
            if i == 0 {
                assert(join_hops(cur) == tf_text(hops@[0]));
                assert(line@ =~= prefix + join_hops(cur));
            } else {
                assert(join_hops(cur) == join_hops(pre) + " -> "@ + tf_text(hops@[i as int]));
                assert(line@ =~= prefix + join_hops(cur));
            }
        }
        i += 1;
    }
    proof {
        assert(hops@.subrange(0, hops@.len() as int) =~= hops@);
        assert(line@ =~= line_text(*type_map, show_relay, *target, path@));
    }
    line
}

} // verus!
