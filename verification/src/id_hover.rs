//! What there is to say about the id that a widget is given.
//!
//! An id need not be unique, not even among siblings, so nothing here says that it is.

use crate::wording;
use crate::wording::{decimal_text, join3};
use vstd::prelude::*;
use vstd::string::*;

verus! {

/// How often an id is used.
pub open spec fn count_phrase(total: nat) -> Seq<char> {
    if total == 0 {
        "No references"@
    } else if total == 1 {
        "1 reference"@
    } else {
        wording::decimal(total) + " references"@
    }
}

/// Where an id is used, where it is used both in anchors and in Lua.
pub open spec fn breakdown(anchors: nat, lua: nat) -> Seq<char> {
    if anchors > 0 && lua > 0 {
        " ("@ + wording::decimal(anchors) + " "@ + (if anchors == 1 {
            "anchor"@
        } else {
            "anchors"@
        }) + " in this file, "@ + wording::decimal(lua) + " in the paired Lua controller(s))"@
    } else {
        Seq::empty()
    }
}

/// What there is to say about an id that a document gives more than once.
pub open spec fn caveat(id: Seq<char>, repeated: bool) -> Seq<char> {
    if repeated {
        "\n\nNote: `"@ + id
            + "` is declared more than once in this document. OTClient does not enforce unique ids: a duplicate sibling id is last-writer-wins for `getChildById`/anchor-target lookups, but first-writer-wins for dotted Lua field access (`UIWidget::setId`)."@
    } else {
        Seq::empty()
    }
}

/// What there is to say about an id.
pub open spec fn id_body(id: Seq<char>, anchors: nat, lua: nat, repeated: bool) -> Seq<char> {
    "**`"@ + id + "`** — this widget's id."@ + "\n\n"@ + count_phrase(anchors + lua) + breakdown(
        anchors,
        lua,
    ) + "."@ + caveat(id, repeated)
}

/// What there is to say about an id: how often anchors of the document and Lua code refer to it, and
/// whether the document gives it more than once.
pub fn id_hover_body(
    id: &str,
    anchor_count: usize,
    lua_count: usize,
    has_duplicate_decl: bool,
) -> (r: String)
    requires
        anchor_count + lua_count <= usize::MAX,
    ensures
        r@ == id_body(id@, anchor_count as nat, lua_count as nat, has_duplicate_decl),
{
    let total: usize = anchor_count + lua_count;
    let mut r = join3("**`", id, "`** — this widget's id.");
    r.append("\n\n");
    let ghost front = r@;
    if total == 0 {
        r.append("No references");
    } else if total == 1 {
        r.append("1 reference");
    } else {
        let mut count = decimal_text(total);
        count.append(" references");
        r.append(count.as_str());
    }
    assert(r@ == front + count_phrase(total as nat));
    let ghost counted = r@;
    if anchor_count > 0 && lua_count > 0 {
        let mut parts = " (".to_owned();
        parts.append(decimal_text(anchor_count).as_str());
        parts.append(" ");
        if anchor_count == 1 {
            parts.append("anchor");
        } else {
            parts.append("anchors");
        }
        parts.append(" in this file, ");
        parts.append(decimal_text(lua_count).as_str());
        parts.append(" in the paired Lua controller(s))");
        assert(parts@ == breakdown(anchor_count as nat, lua_count as nat));
        r.append(parts.as_str());
    }
    assert(r@ =~= counted + breakdown(anchor_count as nat, lua_count as nat));
    r.append(".");
    let ghost ended = r@;
    if has_duplicate_decl {
        let note = join3(
            "\n\nNote: `",
            id,
            "` is declared more than once in this document. OTClient does not enforce unique ids: a duplicate sibling id is last-writer-wins for `getChildById`/anchor-target lookups, but first-writer-wins for dotted Lua field access (`UIWidget::setId`).",
        );
        r.append(note.as_str());
    }
    assert(r@ =~= ended + caveat(id@, has_duplicate_decl));
    r
}

} // verus!
