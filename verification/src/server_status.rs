use vstd::prelude::*;

verus! {

/// An arbitrary JSON value, as `serde_json` holds it; carried through unread.
#[verifier::external_type_specification]
#[verifier::external_body]
pub struct ExJsonValue(serde_json::Value);

/// A server's answer to a status request.
#[derive(Default, Debug, Clone, PartialEq)]
pub struct ServerStatus {
    pub version: Version,
    pub players: Players,
    pub description: Description,
    pub favicon: String,
    pub modinfo: Option<Modinfo>,
}

/// The game version a server runs and the protocol number it speaks.
#[derive(Default, Debug, Clone, PartialEq)]
pub struct Version {
    pub name: String,
    pub protocol: i64,
}

/// How many players a server admits and holds, with some of their names.
#[derive(Default, Debug, Clone, PartialEq)]
pub struct Players {
    pub max: i64,
    pub online: i64,
    pub sample: Option<Vec<Sample>>,
}

/// One player of a server's sample.
#[derive(Default, Debug, Clone, PartialEq)]
pub struct Sample {
    pub name: String,
    pub id: String,
}

/// A server's message of the day.
#[derive(Default, Debug, Clone, PartialEq)]
pub struct Description {
    pub text: String,
    pub extra: Option<Vec<Extra>>,
}

/// A further piece of a message of the day.
#[derive(Default, Debug, PartialEq)]
pub struct Extra {
    pub extra: Option<Vec<Extra>>,
    pub text: String,
}

/// The mod loader a modded server reports, with its mods.
#[derive(Default, Debug, Clone, PartialEq)]
pub struct Modinfo {
    pub type_field: String,
    pub mod_list: Vec<serde_json::Value>,
}

/// `a` and `b` hold the same text and, piece by piece, the same nested pieces.
pub open spec fn same_extra(a: Extra, b: Extra) -> bool
    decreases a, 0nat,
{
    &&& a.text@ == b.text@
    &&& match (a.extra, b.extra) {
        (None, None) => true,
        (Some(x), Some(y)) => {
            proof {
                assert(decreases_to!(a => a.extra));
                assert(decreases_to!(a.extra => x));
                assert(decreases_to!(x => x@));
            }
            x@.len() == y@.len() && same_extras(x@, y@, x@.len())
        },
        _ => false,
    }
}

/// The first `k` pieces of `xs` and of `ys` are pairwise the same.
pub open spec fn same_extras(xs: Seq<Extra>, ys: Seq<Extra>, k: nat) -> bool
    decreases xs, k,
{
    if k == 0 {
        true
    } else if k <= xs.len() && k <= ys.len() {
        &&& same_extras(xs, ys, (k - 1) as nat)
        &&& same_extra(xs[k - 1], ys[k - 1])
    } else {
        false
    }
}

/// Comparing the first `k` pieces does not look past them.
proof fn lemma_same_extras_prefix(xs: Seq<Extra>, ys: Seq<Extra>, c: Extra, k: nat)
    requires
        k <= xs.len(),
    ensures
        same_extras(xs.push(c), ys, k) == same_extras(xs, ys, k),
    decreases k,
{
    if k > 0 {
        lemma_same_extras_prefix(xs, ys, c, (k - 1) as nat);
        assert(xs.push(c)[k - 1] == xs[k - 1]);
    }
}

/// A copy of `extra` and of all the pieces nested in it.
fn clone_extra(extra: &Extra) -> (copy: Extra)
    ensures
        same_extra(copy, *extra),
    decreases extra,
{
    let nested = match &extra.extra {
        None => None,
        Some(list) => {
            let mut out: Vec<Extra> = Vec::new();
            let mut i: usize = 0;
            while i < list.len()
                invariant
                    i <= list.len(),
                    extra.extra == Some(*list),
                    out@.len() == i,
                    same_extras(out@, list@, i as nat),
                decreases list.len() - i,
            {
                assert(decreases_to!(extra => list@[i as int])) by {
                    assert(decreases_to!(extra => extra.extra));
                    assert(decreases_to!(extra.extra => extra.extra->0));
                    assert(decreases_to!(*list => list@));
                    assert(decreases_to!(list@ => list@[i as int]));
                }
                let piece = clone_extra(&list[i]);
                let ghost before = out@;
                out.push(piece);
                proof {
                    lemma_same_extras_prefix(before, list@, piece, i as nat);
                    assert(out@ == before.push(piece));
                    assert(out@[i as int] == piece);
                }
                i = i + 1;
            }
            Some(out)
        },
    };
    let copy = Extra { extra: nested, text: extra.text.clone() };
    copy
}

impl Clone for Extra {
    fn clone(&self) -> (copy: Self)
        ensures
            same_extra(copy, *self),
    {
        clone_extra(self)
    }
}

} // verus!
